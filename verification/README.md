# git-annex-browser

A terminal view of git-annex repositories. It takes a directory, finds all git-annex
repositories below it, and shows their drives (special remotes), trust levels, last checks and
files, and above all which files are on which drives.

What the program decides and computes is a library of its own, verified with Verus: every
function states what it returns or changes, and what holds of the library as a whole is proved
beside it.

## Layout

- `src/` is the library.
  - `text`, `order`, `paths`, `table`, `tally`: texts, sorting, paths, and the collections.
  - `trust`, `logs`, `secrets`: the logs on the `git-annex` branch.
  - `annex`, `load`, `cache`, `profile`: what is known of a repository, how it is put together
    from what git and git-annex answer, what is stored, and which drives are set up unusually.
  - `node`, `files`, `usage`, `usage_nodes`, `tree`: the tree that is browsed.
  - `app`, `snapshot`, `worker`, `ui`: the state of the browser, what it shows, the scan in the
    background, and the keys.
  - `visual`, `layout`, `report`, `util`: dashboards, rows on the screen, and plain output.
- `app/` is the program around it: the command line, git and git-annex, the file system, the
  threads and the terminal.
- `tests/` holds the tests.

## Use

    git-annex-browser [DIR]

`DIR` defaults to the current directory. `--scan` updates the cache, `--dump` prints a summary.

| Keys              | What they do                              |
| ----------------- | ----------------------------------------- |
| ↑ / k, ↓ / j      | up, down                                  |
| PgUp / PgDn       | page through the list                     |
| Shift+PgUp / PgDn | scroll the details                        |
| g / G             | top, bottom                               |
| → / Enter / l     | enter                                     |
| ← / h / Backspace | go back                                   |
| r / F5            | look again                                |
| /                 | filter the list                           |
| x                 | the record behind a row                   |
| z                 | a dashboard on the whole screen, and back |
| ? / F1            | help                                      |
| q / Esc           | quit                                      |
