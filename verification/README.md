# Zed Plus

The state and the rules behind a set of editor windows, verified with Verus:

- the **git window** and the **git modal**: the changed files of a repository as a tree of
  directories, with staging, a diff of the selected file, committing and pushing;
- the **search modal**: matches across a project, each shown as one short line;
- the **agent window**: the agent panel with the threads list beside it.

## Layout

- `src/` is the library. Every function in it is proved against its contract.
  - `text`, `row_text`: strings, and the slice of a long line that a row draws
  - `tree`, `outline`, `listing`, `display`: changed files as a tree, and its rows
  - `changes`, `staging`, `commit`, `preview`: what a list of changes says and does
  - `runs`: numbers that tell background work from the work that replaced it
  - `plus_git`, `idea_git`, `idea_search`, `idea_agent`, `windows`: the windows themselves
  - the modules ending in `_laws` hold what is proved of several actions together
- `tests/` runs the library on concrete values.
- `app/` draws the windows and talks to the editor. What a list holds, what a click or a key does
  and whether late work still counts is asked of the library, in plain values. What is left to
  `app/` is how that looks, and the calls into the editor, git and the file system.
