//! The commands, and what is decided before they are carried out.
use vstd::prelude::*;

use crate::command::CommandLine;
use crate::style;
use crate::sync::SyncPlan;
use crate::text::u64_to_string;

verus! {

/// Sync jj bookmarks with GitHub PRs.
pub struct Cli {
    /// Skip confirmation prompts
    pub yes: bool,
    pub command: Option<Command>,
}

pub enum Command {
    /// Display PRs as a graph (default command)
    Show(ShowArgs),
    /// Display JJ changes and their associated PRs
    Log(LogArgs),
    /// Reconcile local jj state with GitHub (push, update bases, rebase merged children)
    Sync(SyncArgs),
    /// Create a new PR for an existing bookmark
    Create(CreateArgs),
    /// Utility commands
    Util(UtilArgs),
}

#[derive(Clone, Copy)]
pub struct ShowArgs {
    /// Show closed PRs as well
    pub all: bool,
    /// Show parents before children
    pub reversed: bool,
}

#[derive(Clone, Copy)]
pub struct LogArgs {
    /// Show JJ changes that are not associated with any PRs
    pub all: bool,
    /// Show parents before children
    pub reversed: bool,
}

#[derive(Clone, Copy)]
pub struct SyncArgs {
    /// Show what would be done without doing it
    pub dry_run: bool,
}

pub struct CreateArgs {
    /// Bookmark name (must already exist)
    pub bookmark: String,
    /// PR title (default: first line of tip commit description)
    pub title: Option<String>,
    /// PR description/body
    pub body: Option<String>,
    /// Show what would be done without doing it
    pub dry_run: bool,
}

#[derive(Clone, Copy)]
pub struct UtilArgs {
    pub command: UtilCommand,
}

#[derive(Clone, Copy)]
pub enum UtilCommand {
    /// Dump raw state (jj + gh) as JSON for test fixtures
    Dump,
    /// Install recommended jj aliases for working with PRs
    InstallAliases(InstallAliasesArgs),
}

#[derive(Clone, Copy)]
pub struct InstallAliasesArgs {
    /// Install for this repo instead of this user
    pub repo: bool,
}

/// The command to carry out: `show` is the default.
pub fn chosen_command(cli: Cli) -> (r: Command)
    ensures
        match cli.command {
            Some(command) => r == command,
            None => r == Command::Show(ShowArgs { all: false, reversed: false }),
        },
{
    match cli.command {
        Some(command) => command,
        None => Command::Show(ShowArgs { all: false, reversed: false }),
    }
}

/// Where the data for a command comes from.
pub enum Needs {
    /// No data: the aliases are installed, for the repo or for the user.
    Aliases(bool),
    /// The raw data alone.
    Input,
    /// The repo state.
    State,
}

/// What a command needs before it is carried out.
pub fn command_needs(command: &Command) -> (r: Needs)
    ensures
        match command {
            Command::Util(args) => match args.command {
                UtilCommand::InstallAliases(a) => r == Needs::Aliases(a.repo),
                UtilCommand::Dump => r == Needs::Input,
            },
            _ => r == Needs::State,
        },
{
    match command {
        Command::Util(args) => match args.command {
            UtilCommand::InstallAliases(a) => Needs::Aliases(a.repo),
            UtilCommand::Dump => Needs::Input,
        },
        _ => Needs::State,
    }
}

/// What to do with a plan.
pub enum Decision {
    /// There is nothing to do.
    Nothing,
    /// Show the plan alone.
    DryRun,
    /// Ask with this message, and do it if the user agrees.
    Ask(String),
}

/// What to do with a sync plan.
pub fn sync_decision(actions: usize, dry_run: bool) -> (r: Decision)
    ensures
        actions == 0 ==> r is Nothing,
        actions > 0 && dry_run ==> r is DryRun,
        actions > 0 && !dry_run ==> r is Ask && r->Ask_0@ == "Apply "@ + crate::text::decimal(
            actions as nat,
        ) + " action(s)?"@,
{
    if actions == 0 {
        Decision::Nothing
    } else if dry_run {
        Decision::DryRun
    } else {
        let mut s = "Apply ".to_owned();
        s.append(u64_to_string(actions as u64).as_str());
        s.append(" action(s)?");
        Decision::Ask(s)
    }
}

/// What to do with a plan for a new PR.
pub fn create_decision(dry_run: bool) -> (r: Decision)
    ensures
        dry_run ==> r is DryRun,
        !dry_run ==> r is Ask && r->Ask_0@ == "Create PR?"@,
{
    if dry_run {
        Decision::DryRun
    } else {
        Decision::Ask("Create PR?".to_owned())
    }
}

/// What is said of a dry run.
pub fn dry_run_note(color: bool) -> (r: String)
    ensures
        r@ == "\n"@ + style::warn_text("Dry run: no changes applied."@, color),
{
    let mut s = "\n".to_owned();
    s.append(style::warn("Dry run: no changes applied.", color).as_str());
    s
}

/// The lines that show a sync plan: the warnings, then the actions.
pub open spec fn plan_lines_text(
    warnings: Seq<Seq<char>>,
    actions: Seq<crate::sync::ActionView>,
    color: bool,
) -> Seq<Seq<char>> {
    Seq::new(warnings.len(), |i: int| "  "@ + style::warn_text(warnings[i], color)) + Seq::new(
        actions.len(),
        |i: int| "  "@ + crate::sync::action_text(actions[i]),
    )
}

/// The lines that show a sync plan: the warnings, then the actions.
pub fn plan_lines(plan: &SyncPlan, color: bool) -> (r: Vec<String>)
    ensures
        crate::text::views(r@) == plan_lines_text(
            crate::text::views(plan.warnings@),
            crate::sync::action_views(plan.actions@),
            color,
        ),
{
    let mut out: Vec<String> = Vec::new();
    let ghost warnings = crate::text::views(plan.warnings@);
    let ghost actions = crate::sync::action_views(plan.actions@);
    let ghost want = plan_lines_text(warnings, actions, color);
    let mut i: usize = 0;
    assert(crate::text::views(out@) == want.take(0));
    while i < plan.warnings.len()
        invariant
            i <= plan.warnings.len(),
            warnings == crate::text::views(plan.warnings@),
            want == plan_lines_text(warnings, actions, color),
            crate::text::views(out@) == want.take(i as int),
        decreases plan.warnings.len() - i,
    {
        let mut line = "  ".to_owned();
        line.append(style::warn(plan.warnings[i].as_str(), color).as_str());
        let ghost text = line@;
        let ghost before = out@;
        out.push(line);
        assert(crate::text::views(out@) == crate::text::views(before).push(text));
        assert(want.take(i + 1) == want.take(i as int).push(want[i as int]));
        i = i + 1;
    }
    let ghost n = plan.warnings.len() as int;
    let mut j: usize = 0;
    while j < plan.actions.len()
        invariant
            j <= plan.actions.len(),
            n == warnings.len(),
            actions == crate::sync::action_views(plan.actions@),
            want == plan_lines_text(warnings, actions, color),
            crate::text::views(out@) == want.take(n + j),
        decreases plan.actions.len() - j,
    {
        let mut line = "  ".to_owned();
        line.append(plan.actions[j].display().as_str());
        let ghost text = line@;
        let ghost before = out@;
        out.push(line);
        assert(crate::text::views(out@) == crate::text::views(before).push(text));
        assert(want[n + j] == text);
        assert(want.take(n + j + 1) == want.take(n + j).push(want[n + j]));
        j = j + 1;
    }
    assert(want.take(n + j) == want);
    out
}

/// The flag that tells where aliases are installed.
pub open spec fn scope_text(repo: bool) -> Seq<char> {
    if repo {
        "--repo"@
    } else {
        "--user"@
    }
}

/// The command alias: `jj pr` runs `jj-pr`.
pub const COMMAND_ALIAS: &'static str = "[\"util\", \"exec\", \"--\", \"jj-pr\"]";

/// The revset alias `pr(n)`: the commits with the trailer `PR: #n`.
pub const PR_REVSET: &'static str = "description(regex:\"(?m)^PR: #\" ++ n ++ \"$\")";

/// The revset alias `pr_root(n)`: the roots of those commits.
pub const PR_ROOT_REVSET: &'static str = "roots(pr(n))";

/// The command line that sets a configuration value.
pub open spec fn config_view(
    repo: bool,
    key: Seq<char>,
    value: Seq<char>,
) -> crate::command::CommandView {
    crate::command::jj_view(
        seq!["config"@, "set"@, scope_text(repo), key, value],
        "Failed to run `jj config set` for alias"@,
        "jj config set failed for "@ + key,
    )
}

fn set_config(repo: bool, key: &str, value: &str) -> (r: CommandLine)
    ensures
        r@ == config_view(repo, key@, value@),
{
    let scope = if repo {
        "--repo"
    } else {
        "--user"
    };
    let parts: Vec<&str> = vec!["config", "set", scope, key, value];
    let mut failure = "jj config set failed for ".to_owned();
    failure.append(key);
    let r = CommandLine::jj(&parts, "Failed to run `jj config set` for alias", failure.as_str());
    assert(r@.args == seq!["config"@, "set"@, scope_text(repo), key@, value@]);
    r
}

/// What a list of command lines says.
pub open spec fn command_views(lines: Seq<CommandLine>) -> Seq<crate::command::CommandView> {
    Seq::new(lines.len(), |i: int| lines[i]@)
}

/// Install the `jj pr` subcommand alias and the revset aliases `pr(n)` and `pr_root(n)`. The
/// command lines are run one after the other.
pub fn install_aliases(repo: bool) -> (r: Vec<CommandLine>)
    ensures
        command_views(r@) == seq![
            config_view(repo, "aliases.pr"@, COMMAND_ALIAS@),
            config_view(repo, "revset-aliases.\"pr(n)\""@, PR_REVSET@),
            config_view(repo, "revset-aliases.\"pr_root(n)\""@, PR_ROOT_REVSET@),
        ],
{
    let mut out: Vec<CommandLine> = Vec::new();
    out.push(set_config(repo, "aliases.pr", COMMAND_ALIAS));
    out.push(set_config(repo, "revset-aliases.\"pr(n)\"", PR_REVSET));
    out.push(set_config(repo, "revset-aliases.\"pr_root(n)\"", PR_ROOT_REVSET));
    assert(command_views(out@) == seq![
        config_view(repo, "aliases.pr"@, COMMAND_ALIAS@),
        config_view(repo, "revset-aliases.\"pr(n)\""@, PR_REVSET@),
        config_view(repo, "revset-aliases.\"pr_root(n)\""@, PR_ROOT_REVSET@),
    ]);
    out
}

/// What is said of installed aliases.
pub fn installed_note(repo: bool) -> (r: String)
    ensures
        r@ == "Installed to "@ + scope_text(repo)
            + " config:\n  command alias: jj pr — runs jj-pr\n  revset aliases: pr(n), pr_root(n)\n\nUsage:\n  jj pr show\n  jj pr sync"@,
{
    let mut s = "Installed to ".to_owned();
    if repo {
        s.append("--repo");
    } else {
        s.append("--user");
    }
    s.append(
        " config:\n  command alias: jj pr — runs jj-pr\n  revset aliases: pr(n), pr_root(n)\n\nUsage:\n  jj pr show\n  jj pr sync",
    );
    s
}

/// A plan is shown whole: a line for each warning, in order, and then a line for each action, in
/// order, each ended by the text of what it is about.
pub proof fn plan_is_shown_whole(
    warnings: Seq<Seq<char>>,
    actions: Seq<crate::sync::ActionView>,
    color: bool,
    i: int,
)
    ensures
        ({
            let lines = plan_lines_text(warnings, actions, color);
            let n = warnings.len();
            &&& lines.len() == n + actions.len()
            &&& 0 <= i < n && !color ==> lines[i] == "  "@ + warnings[i]
            &&& 0 <= i < n && color ==> style::stands_at(lines[i], 7, warnings[i])
            &&& 0 <= i < actions.len() ==> lines[n + i] == "  "@ + crate::sync::action_text(
                actions[i],
            )
        }),
{
    if 0 <= i < warnings.len() && color {
        reveal_strlit("  ");
        let w = warnings[i];
        style::lemma_style_start(style::YELLOW);
        let start = style::style_start(Some(style::YELLOW), false, false);
        let end = style::style_end(Some(style::YELLOW), false, false);
        style::lemma_stands("  "@ + start, w, end);
        assert("  "@ + (start + w + end) =~= "  "@ + start + w + end);
    }
}

/// A configuration value is set under its key, for the repo exactly where that is asked for and
/// for the user otherwise.
pub proof fn values_are_set_where_asked_for(repo: bool, key: Seq<char>, value: Seq<char>)
    ensures
        ({
            let line = config_view(repo, key, value);
            &&& line.program == "jj"@
            &&& line.args.len() == 5
            &&& line.args[0] == "config"@ && line.args[1] == "set"@
            &&& repo ==> line.args[2] == "--repo"@
            &&& !repo ==> line.args[2] == "--user"@
            &&& line.args[3] == key && line.args[4] == value
            &&& line.stdin is None
        }),
{
}

} // verus!
