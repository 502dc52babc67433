# funky

Turn shell commands into reusable zsh functions: `funky new deploy -- kubectl
apply -f manifests/` writes `~/.funky/deploy.zsh`, and `funky init` makes zsh
autoload every function file in that directory.

## Layout

- `src/` — the library, verified with Verus. Each public function states in
  its `ensures` what it returns; the `lemma_*` proof functions state laws
  that span calls.
  - `text.rs` — Unicode whitespace, trimming, line splitting, UTF-8 offsets.
  - `commands/new/history.rs` — zsh history parsing (plain and extended
    format, multi-line commands, newest first, no duplicates, at most 200).
  - `commands/new/mod.rs` — tokenizing a command, replacing chosen tokens
    with `$1`, `$2`, …, suggesting a name, and where a command comes from.
  - `commands/new/interactive.rs` — the interactive wizard as a state
    machine: each answer gives the next stage and what to ask or do.
  - `commands/init.rs` — the zsh configuration snippet and the rc file
    update, which adds it at most once.
  - `commands/edit.rs`, `commands/list.rs`, `file.rs` — editor choice, edit
    outcome, listing function files, and what a path must be.
  - `functions/` — slugs (function names), function definitions, the
    rendered zsh function file and the file name of each function.
- `app/` — the `funky` program: command-line parsing, prompts, files,
  clipboard, editor processes. It does the input and output and leaves every
  decision to the library.
- `tests/` — tests of the library on concrete values.
