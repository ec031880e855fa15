//! Command lines for other programs. To run them is for the caller.
use vstd::prelude::*;

use crate::text::owned;

verus! {

/// A command line, and what to say when it fails.
#[derive(Debug)]
pub struct CommandLine {
    pub program: String,
    pub args: Vec<String>,
    /// What the program reads from its standard input.
    pub stdin: Option<String>,
    /// What to say when the program cannot be run.
    pub context: String,
    /// What to say, before what the program printed, when it reports failure.
    pub failure: String,
}

/// What a command line says.
#[verifier::ext_equal]
pub struct CommandView {
    pub program: Seq<char>,
    pub args: Seq<Seq<char>>,
    pub stdin: Option<Seq<char>>,
    pub context: Seq<char>,
    pub failure: Seq<char>,
}

impl View for CommandLine {
    type V = CommandView;

    open spec fn view(&self) -> CommandView {
        CommandView {
            program: self.program@,
            args: crate::text::views(self.args@),
            stdin: crate::gh::opt_string(self.stdin),
            context: self.context@,
            failure: self.failure@,
        }
    }
}

/// A command line of `jj` without input.
pub open spec fn jj_view(
    args: Seq<Seq<char>>,
    context: Seq<char>,
    failure: Seq<char>,
) -> CommandView {
    CommandView { program: "jj"@, args, stdin: None, context, failure }
}

/// A command line of `gh` without input.
pub open spec fn gh_view(
    args: Seq<Seq<char>>,
    context: Seq<char>,
    failure: Seq<char>,
) -> CommandView {
    CommandView { program: "gh"@, args, stdin: None, context, failure }
}

impl CommandLine {
    /// A command line of `jj` without input.
    pub fn jj(args: &Vec<&str>, context: &str, failure: &str) -> (r: Self)
        ensures
            r@ == jj_view(crate::text::str_views(args@), context@, failure@),
    {
        CommandLine {
            program: "jj".to_owned(),
            args: owned(args),
            stdin: None,
            context: context.to_owned(),
            failure: failure.to_owned(),
        }
    }

    /// A command line of `gh` without input.
    pub fn gh(args: &Vec<&str>, context: &str, failure: &str) -> (r: Self)
        ensures
            r@ == gh_view(crate::text::str_views(args@), context@, failure@),
    {
        CommandLine {
            program: "gh".to_owned(),
            args: owned(args),
            stdin: None,
            context: context.to_owned(),
            failure: failure.to_owned(),
        }
    }

    /// The error of a program that reported failure, with what it printed.
    pub fn error(&self, stderr: &str) -> (r: String)
        ensures
            r@ == self.failure@ + ": "@ + stderr@,
    {
        let mut s = self.failure.clone();
        s.append(": ");
        s.append(stderr);
        s
    }
}

} // verus!
