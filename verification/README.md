# marcterm

The core of marcterm, a terminal emulator with projects, git worktrees, tabs
and split panels, written and proved in Verus.

## Layout

- `src/` is the verified library. Every function there carries a contract
  that Verus checks:
  - `panels` — a tab's split tree: its panels, where each one sits along an
    axis, its neighbours, replacing and removing panels.
  - `state` — the window: tabs, projects, their sidebar order, and every
    operation the sidebar, keyboard and menus apply.
  - `events` — what the window does with a terminal's title or output and
    with a fresh listing of a project's worktrees.
  - `session` — the records kept between runs: the ring of sessions, the
    recent projects and each project's sidebar preferences. Each function
    takes what was read and gives back what is to be written.
  - `restore` — reopening a saved session.
  - `git`, `paths`, `text`, `display`, `shortcuts`, `terminal`, `config` —
    worktrees, path names, decimal and ordered text, sidebar labels, key
    bindings, the shell's command line and the startup choice.
  - `seqs` — sequence helpers the contracts are written with.
- `tests/` runs the library on concrete values.
- `app/` is the program around it: command line, configuration file, logs,
  the state directory's JSON files, and git through gix.
