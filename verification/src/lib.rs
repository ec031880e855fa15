//! The logic of `jj-pr`, which syncs Jujutsu (jj) bookmarks with GitHub pull requests.
//!
//! Nothing is kept between runs: all that the library works on is what `jj` and `gh` print, read
//! into plain values. From the commits, their bookmarks and their `PR: #N` trailers it derives
//! which commits belong to which PR ([`membership`]) and the graph of PRs that follows
//! ([`pr_dag`]); on that it draws graphs ([`render`]), plans a sync ([`sync`]) and plans new PRs
//! ([`create`]). Running programs is for the caller: the library says what to run ([`command`])
//! and in which steps.
pub mod claims;
pub mod cli;
pub mod command;
pub mod create;
pub mod gh;
pub mod graph_algorithms;
pub mod input;
pub mod jj;
pub mod membership;
pub mod node_graph;
pub mod node_store;
pub mod order;
pub mod pr_dag;
pub mod render;
pub mod sets;
pub mod style;
pub mod sync;
pub mod text;
pub mod types;
pub mod ui;
pub mod wrap;
