# wt-sync

Rebase stacked worktree branches in dependency order.

`wt-sync` finds out which branch stands on which, from a stack file or from the commit graph, and
rebases each branch onto its parent, parents first. All stacks together are taken as the outline of
the tree shows them, the stack of the current branch generation by generation. All rebases use
`--onto` with the fork point of the last sync, so that parents that were rewritten are handled.
Branches that were merged are detected, and their children move up.

## Layout

`src/` is a Verus library. It decides; it never touches git or the file system.

| Module | |
|--------|-|
| `text`, `order`, `branch_map` | text, the order of names, maps from branch names |
| `tree`, `generations`, `likeness`, `wiring` | the dependency tree, its walks, what they depend on, and what they find in a well-formed tree |
| `stack_file`, `fork_points`, `layout`, `round_trip` | the two persisted files, how the stack file is laid out, and that what is written is read back |
| `ground`, `nearness`, `history`, `assembly` | worktrees, relatives, integrated branches, and the tree that follows from them |
| `inquiry`, `survey` | the questions that a survey puts to the repository, and the tree that the replies give |
| `options`, `plan`, `notice`, `style`, `failure`, `command` | options, the plan, what is told and how it looks, failures, git commands |
| `state`, `session` | a sync: what is to be done next, and how it goes on with what came of it |
| `conduct`, `checks`, `turns`, `pushes`, `moves`, `course`, `progress`, `sequel` | what holds of every sync: at each step, over all steps up to here, that it ends, and what the next one finds |

`Survey` and `Session` each pair an executable type with a model (`Inquiry`, `State`) whose steps the
contracts state exactly. Functions named `law_..` are theorems about the models.

`app/` is the program around the library: command line, git, files, terminal.

`tests/` runs the library on small trees, files and scripted repositories.
