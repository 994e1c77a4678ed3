# herdr-tab-naming

A Herdr plugin that keeps every tab label in sync with the repository and
ticket the tab is working in (`llama-rs BACK-565`), leaving hand-renamed
tabs alone.

The plugin's rules and computations are a library written in Verus and
proved against their contracts; the program around it does the I/O and runs
the watcher's loop, asking the library what to do at each turn.

## Layout

- `src/` — the verified library.
  - `text` — character classes, trimming, prefixes, ordering of texts.
  - `path` — Unix paths as their components (`parse`, `parent`, `join`,
    `file_name`, `display`).
  - `label` — template rendering, leftover-token stripping, whitespace
    collapsing, truncation, ticket extraction.
  - `git` — one step of the walk up to a repository, `.git` files, `HEAD`.
  - `state` — the ownership record (which label the plugin wrote on which
    tab), the ownership rule, the pid file and the watcher's command line.
  - `config` — the configuration, its defaults and its directory.
  - `herdr` — panes and tabs as the socket API reports them.
  - `sync` — the desired label of a pane, the pane that stands for a tab,
    and a reconcile pass (`Pass`), which says which rename to ask of Herdr
    next and takes Herdr's answer.
  - `report` — the lines the program prints and logs.
  - `watcher` — the resident watcher's decisions.
  - `reply` — the socket API's replies and subscription acknowledgements,
    read as results and errors (the JSON itself is parsed by `serde_json`).
- `tests/` — tests of the library, run against the compiled crate.
- `app/` — the program: the socket client, the filesystem, the watcher
  process and its loop, the command line.
