# grove

A fast, simple git worktree manager. Worktrees live flat under
`<repo>/.git/wt/<id>`, with short base-36 ids; their hierarchy (which worktree
was created from within which) is kept in a small registry.

The crate is in two parts:

- `src/` is the verified library, written with Verus. Each function states
  what it does in `requires`/`ensures` over mathematical models, and Verus
  proves it. It holds the registry (`meta`), the listing and its tree view
  (`listing`, `render`), the decisions behind each command (`commands`),
  configuration merging and hook plans (`config`, `template`), ignored-file
  selection and copy summaries (`glob`, `summary`), reading git's output
  (`git`), paths (`paths`), ids (`ids`), the porcelain record format
  (`porcelain`), the command line (`cli`) and the shell integration (`shell`).
  Laws that relate several operations (escaping round trips, id encoding,
  what registering and removing worktrees do, that the listing reaches every
  descendant) are public proof functions.
- `app/` is the program around it: argument parsing with clap, the SQLite
  database, reading the TOML configuration, running git and fzf, copying
  files and running hooks in parallel, and writing to the terminal.

Tests of the library are under `tests/`.
