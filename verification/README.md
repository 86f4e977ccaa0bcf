# cargo-buckal

The logic behind `cargo buckal`, which keeps the Buck2 files of a Cargo workspace
up to date, as a library whose behaviour is proved with Verus.

- `src/` is the library. Every function states what it returns, and proof
  functions named `law_*` state what holds of several of them together.
  - `buckify` generates, patches and merges the files of packages.
  - `cache` tells which packages have changed since the last run.
  - `features` narrows features down to those that some platform enables.
  - `workspace` resolves which packages a command is about.
  - `commands` reads arguments and plans the runs of Buck2.
  - `diagnostics`, `assets` and `config` read and render what is on disk.
  - `text`, `sorted`, `paths` and `error` are what the others are built on.
- `tests/` runs the library on concrete values.
- `app/` reads and writes files, runs other programs and prints.

What comes from other crates is called in small functions marked
`external_body`. The comment above each says what is taken on trust.
