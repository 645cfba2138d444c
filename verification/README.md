# nv

`nv` finds, sets and generates environment variables across the services of
a project — `.env*` files, `configmap*.yml` and `secrets*.yml` — while
keeping comments and formatting byte-identical outside the edited line.

## Layout

- `src/` — the library, verified with Verus. Every public function states in
  its `ensures` what it returns or changes, over the spec functions and views
  next to it.
  - `text.rs` — the character-level model of text (`lines_of`, `rebuild`,
    trimming) and its lemmas.
  - `parser/` — the dotenv and YAML readers and editors, comment attachment
    and key reordering. `dotenv_laws.rs` and `yaml_laws.rs` prove that an
    edit changes only the line of its key, where a new key lands, and that a
    value set reads back through the parser;
    `reorder.rs` proves that reordering only permutes lines, keeps pinned
    lines in place and changes nothing without a target order.
  - `config.rs`, `context.rs`, `discovery.rs`, `wizard.rs` — configuration,
    filters, folder discovery and the first-run answers.
  - `search.rs`, `duplicates.rs`, `unused.rs`, `findings.rs`,
    `fake_secrets.rs`, `compare.rs`, `changes.rs` — the commands' logic.
  - `edit.rs`, `display.rs`, `color.rs` — change sets, diffs and trees.
  - `secret.rs`, `encrypt.rs`, `b64.rs` — secret generation, file
    encryption and the base64 text both write.
  - `git.rs` — paths relative to a repository root, over path components.
  - `tui.rs` — the interactive flow as a state machine over key presses.
- `app/` — the program around the library: argument parsing, file and git
  I/O, prompts, progress output and the terminal interface.
- `tests/` — tests of the library's public functions.
