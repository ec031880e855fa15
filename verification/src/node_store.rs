//! The arena of nodes and the maps keyed by its nodes.
//!
//! The collections are those of the `slotmap` crate. A node's key is written as the number that
//! `KeyData::as_ffi` gives: the slot's version in the upper half, its index in the lower half.
//! Nodes are never removed, so every version is one and the indices count up from one.
use slotmap::{DefaultKey, Key, KeyData, SecondaryMap, SlotMap, SparseSecondaryMap};
use vstd::prelude::*;

use crate::pr_dag::Node;

verus! {

/// The key of a node.
pub type NodeKey = u64;

/// The key of the first node.
pub const FIRST_KEY: u64 = 0x1_0000_0001;

/// The key that stands for none.
pub const NULL_KEY: u64 = 0x1_ffff_ffff;

/// The key of the node that was added after `i` others.
pub open spec fn key_at(i: int) -> NodeKey {
    (FIRST_KEY + i) as u64
}

/// Whether `k` is the key of a slot that was never emptied.
pub open spec fn is_key(k: NodeKey) -> bool {
    FIRST_KEY <= k < NULL_KEY
}

/// The place among the nodes that the key `k` has.
pub open spec fn place(k: NodeKey) -> int {
    k - FIRST_KEY
}

/// Whether `k` is one of the keys of `n` nodes.
pub open spec fn key_of(k: NodeKey, n: nat) -> bool {
    is_key(k) && place(k) < n
}

/// The keys of `n` nodes.
pub open spec fn keys_of(n: nat) -> Seq<NodeKey> {
    Seq::new(n, |i: int| key_at(i))
}

/// The largest number of nodes.
pub open spec fn max_nodes() -> nat {
    0xffff_fffe
}

/// Whether `k` has the form of a key.
pub fn has_key_form(k: NodeKey) -> (r: bool)
    ensures
        r == is_key(k),
{
    FIRST_KEY <= k && k < NULL_KEY
}

/// An arena of nodes that only grows.
#[verifier::external_body]
pub struct NodeSlots {
    inner: SlotMap<DefaultKey, Node>,
}

/// The nodes in the order in which they were added.
pub uninterp spec fn stored_nodes(store: NodeSlots) -> Seq<Node>;

impl View for NodeSlots {
    type V = Seq<Node>;

    open spec fn view(&self) -> Seq<Node> {
        stored_nodes(*self)
    }
}

impl NodeSlots {
    /// `SlotMap::with_key` makes an arena without nodes.
    #[verifier::external_body]
    pub(crate) fn new() -> (r: Self)
        ensures
            stored_nodes(r) == Seq::<Node>::empty(),
    {
        NodeSlots { inner: SlotMap::with_key() }
    }

    /// `SlotMap::insert` puts the value into the next slot, where none was ever removed, and
    /// returns the slot's key. It panics on a full map.
    #[verifier::external_body]
    pub(crate) fn insert(&mut self, node: Node) -> (r: NodeKey)
        requires
            stored_nodes(*old(self)).len() < max_nodes(),
        ensures
            stored_nodes(*final(self)) == stored_nodes(*old(self)).push(node),
            r == key_at(stored_nodes(*old(self)).len() as int),
    {
        self.inner.insert(node).data().as_ffi()
    }

    /// `SlotMap::get` returns the value of the slot that the key names, and nothing where there
    /// is no such slot.
    #[verifier::external_body]
    pub(crate) fn get(&self, key: NodeKey) -> (r: Option<&Node>)
        requires
            is_key(key),
        ensures
            r is Some <==> place(key) < stored_nodes(*self).len(),
            r is Some ==> *r->0 == stored_nodes(*self)[place(key)],
    {
        self.inner.get(DefaultKey::from(KeyData::from_ffi(key)))
    }

    /// `SlotMap`'s indexed assignment replaces the value of the slot that the key names. It
    /// panics where there is no such slot.
    #[verifier::external_body]
    pub(crate) fn set(&mut self, key: NodeKey, node: Node)
        requires
            key_of(key, stored_nodes(*old(self)).len()),
        ensures
            stored_nodes(*final(self)) == stored_nodes(*old(self)).update(place(key), node),
    {
        self.inner[DefaultKey::from(KeyData::from_ffi(key))] = node;
    }

    /// `SlotMap::keys` walks the slots in the order of their indices and gives the key of each.
    /// `SlotMap::insert` never lets the arena grow beyond the limit.
    #[verifier::external_body]
    pub(crate) fn keys(&self) -> (r: Vec<NodeKey>)
        ensures
            r@ == keys_of(stored_nodes(*self).len()),
            r@.len() <= max_nodes(),
    {
        self.inner.keys().map(|k| k.data().as_ffi()).collect()
    }
}

/// A list of nodes for each of some nodes.
#[verifier::external_body]
pub struct EdgeMap {
    inner: SecondaryMap<DefaultKey, Vec<NodeKey>>,
}

/// The list that each node has.
pub uninterp spec fn stored_edges(map: EdgeMap) -> Map<NodeKey, Seq<NodeKey>>;

impl View for EdgeMap {
    type V = Map<NodeKey, Seq<NodeKey>>;

    open spec fn view(&self) -> Map<NodeKey, Seq<NodeKey>> {
        stored_edges(*self)
    }
}

impl EdgeMap {
    /// `SecondaryMap::new` makes a map without entries.
    #[verifier::external_body]
    pub(crate) fn new() -> (r: Self)
        ensures
            stored_edges(r).dom() == Set::<NodeKey>::empty(),
    {
        EdgeMap { inner: SecondaryMap::new() }
    }

    /// `SecondaryMap::insert` gives the key the value, in place of one that it had. The key is
    /// not null and no key of its slot has another version, so that nothing is refused.
    #[verifier::external_body]
    pub(crate) fn insert(&mut self, key: NodeKey, list: Vec<NodeKey>)
        requires
            is_key(key),
        ensures
            stored_edges(*final(self)) == stored_edges(*old(self)).insert(key, list@),
    {
        self.inner.insert(DefaultKey::from(KeyData::from_ffi(key)), list);
    }

    /// `SecondaryMap::get` returns the value of the key, if it has one.
    #[verifier::external_body]
    pub(crate) fn get(&self, key: NodeKey) -> (r: Option<&Vec<NodeKey>>)
        requires
            is_key(key),
        ensures
            r is Some <==> stored_edges(*self).contains_key(key),
            r is Some ==> r->0@ == stored_edges(*self)[key],
    {
        self.inner.get(DefaultKey::from(KeyData::from_ffi(key)))
    }
}

/// A flag for each of some nodes.
#[verifier::external_body]
pub struct FlagMap {
    inner: SparseSecondaryMap<DefaultKey, bool>,
}

/// The flag that each node has.
pub uninterp spec fn stored_flags(map: FlagMap) -> Map<NodeKey, bool>;

impl View for FlagMap {
    type V = Map<NodeKey, bool>;

    open spec fn view(&self) -> Map<NodeKey, bool> {
        stored_flags(*self)
    }
}

impl FlagMap {
    /// `SparseSecondaryMap::new` makes a map without entries.
    #[verifier::external_body]
    pub(crate) fn new() -> (r: Self)
        ensures
            stored_flags(r).dom() == Set::<NodeKey>::empty(),
    {
        FlagMap { inner: SparseSecondaryMap::new() }
    }

    /// `SparseSecondaryMap::insert` gives the key the value, in place of one that it had. The
    /// key is not null and no key of its slot has another version, so that nothing is refused.
    #[verifier::external_body]
    pub(crate) fn insert(&mut self, key: NodeKey, flag: bool)
        requires
            is_key(key),
        ensures
            stored_flags(*final(self)) == stored_flags(*old(self)).insert(key, flag),
    {
        self.inner.insert(DefaultKey::from(KeyData::from_ffi(key)), flag);
    }

    /// `SparseSecondaryMap::get` returns the value of the key, if it has one.
    #[verifier::external_body]
    pub(crate) fn get(&self, key: NodeKey) -> (r: Option<bool>)
        requires
            is_key(key),
        ensures
            r is Some <==> stored_flags(*self).contains_key(key),
            r is Some ==> r->0 == stored_flags(*self)[key],
    {
        self.inner.get(DefaultKey::from(KeyData::from_ffi(key))).copied()
    }
}

/// A set of nodes.
#[verifier::external_body]
pub struct MarkSet {
    inner: SparseSecondaryMap<DefaultKey, ()>,
}

/// The nodes in the set.
pub uninterp spec fn stored_marks(set: MarkSet) -> Set<NodeKey>;

impl View for MarkSet {
    type V = Set<NodeKey>;

    open spec fn view(&self) -> Set<NodeKey> {
        stored_marks(*self)
    }
}

impl MarkSet {
    /// `SparseSecondaryMap::new` makes a map without entries.
    #[verifier::external_body]
    pub(crate) fn new() -> (r: Self)
        ensures
            stored_marks(r) == Set::<NodeKey>::empty(),
    {
        MarkSet { inner: SparseSecondaryMap::new() }
    }

    /// `SparseSecondaryMap::insert` gives the key an entry. The key is not null and no key of
    /// its slot has another version, so that nothing is refused.
    #[verifier::external_body]
    pub(crate) fn insert(&mut self, key: NodeKey)
        requires
            is_key(key),
        ensures
            stored_marks(*final(self)) == stored_marks(*old(self)).insert(key),
    {
        self.inner.insert(DefaultKey::from(KeyData::from_ffi(key)), ());
    }

    /// `SparseSecondaryMap::contains_key` tells whether the key has an entry.
    #[verifier::external_body]
    pub(crate) fn contains(&self, key: NodeKey) -> (r: bool)
        requires
            is_key(key),
        ensures
            r == stored_marks(*self).contains(key),
    {
        self.inner.contains_key(DefaultKey::from(KeyData::from_ffi(key)))
    }
}

} // verus!
