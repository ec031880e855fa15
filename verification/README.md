# jj_pr

The verified logic of `jj-pr`, a command line tool that syncs
[Jujutsu (jj)](https://github.com/jj-vcs/jj) bookmarks with GitHub pull requests.

- **No hidden state**: everything is derived at run time from what `jj` and `gh` print and from
  the `PR: #1234` trailers of change descriptions.
- **jj owns structure**: the graph of changes.
- **GitHub owns presentation**: PR titles, descriptions and review state.
- **Invalid states are first class**: ambiguous commits are shown, with hints, and do not halt
  the work.

## Layout

`src/` is the library. Verus proves the contracts of its functions; those of the few functions that
call an outside crate, or std where it has no specification, are believed.

| module | what it is about |
| --- | --- |
| `types`, `gh`, `jj`, `input` | IDs, PRs, commits, trailers, the query for PRs and its reply |
| `claims` | which PRs the local bookmarks claim, and which have to be pushed |
| `membership` | which PR each commit belongs to |
| `node_graph`, `pr_dag` | the graph of PRs, pending actions, hidden PRs |
| `graph_algorithms` | depth-first search and topological sort |
| `sync`, `create` | the plans for a sync and for a new PR, and the steps that carry them out |
| `render`, `style`, `wrap` | the graphs of PRs and of commits |
| `cli`, `command`, `ui` | commands, command lines for `jj` and `gh`, prompts |
| `node_store` | the arena of nodes, on top of the `slotmap` crate |
| `text`, `order`, `sets` | texts, ordered listings, sets and maps of texts |

Four outside crates are called from the library: `slotmap` holds the nodes, `renderdag` draws
graph rows, `textwrap` wraps lines and `anstyle` writes escape sequences. What is claimed of each
call stands above the function that makes it.

`app/` is the program: it parses arguments, runs `jj` and `gh`, reads their JSON and carries out
the steps that the library returns.

`tests/` runs the library on small repos.
