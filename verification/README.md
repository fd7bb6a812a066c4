# workmux

The decision logic of a worktree manager for tmux, verified with Verus:

- resolving an agent name (`handle` or `project:handle`) to a worktree and the
  agents that run in it;
- changing the layout of a tmux window without losing its sidebar;
- deleting quarantined worktrees, with records of what is pending, retries while
  a directory is not empty yet, and bounded diagnostics.

The library in `src/` performs no I/O. Where a decision needs to know something
about the world, it asks for it, and goes on once it is answered. The drivers in
`app/` run git, tmux and the file operations.

| Module | Contents |
| --- | --- |
| `agent_resolve` | a resolution, one lookup at a time |
| `agent_groups` | agents grouped by worktree, and the choice of one group |
| `agent_selector` | selectors, and the projects that qualify them |
| `agent_pane` | agents, and which of them run in a worktree |
| `worktree_root` | the nearest `.git` above a path |
| `sidebar_layout` | a change of layout, one tmux command at a time |
| `cleanup_tree` | a recursive deletion, one file operation at a time |
| `tree_model` | what a deletion does to a whole tree |
| `cleanup_retry` | when to try a deletion again |
| `pending_cleanup` | pending deletions and their records |
| `failures` | file operation errors, and what they amount to |
| `json_record` | the JSON objects that records are written as |
| `fs_path`, `text` | paths as byte strings, and texts |

Public proof functions named `lemma_...` state what holds across functions.
What is taken on trust about other crates stands in the contracts of the
functions marked `external_body` in `json_record` and `fs_path`.
