# beanfmt

A formatter for [beancount](https://beancount.github.io/) ledgers, written in
Verus: the formatting logic is executable Rust whose behaviour is stated in
`requires` / `ensures` contracts and proved.

## Layout

- `src/` — the verified library.
  - `text.rs`, `lex.rs` — characters, strings and the small grammar pieces
    (dates, numbers, accounts, currencies) the line parser is built from.
  - `line.rs` — classification of a line into its kind and parts.
  - `normalize.rs` — indentation, comments, thousands separators, decimal
    places, amounts in costs and prices, braces.
  - `align.rs` — column alignment of postings and single-line directives.
  - `sort.rs` — times of day, the order entries are sorted in, and sorting of
    a whole ledger with barriers.
  - `options.rs`, `config.rs`, `cli.rs` — options, their names, the layered
    configuration and the command line record.
  - `recursive.rs` — the paths that `include` lines name, and the
    breadth-first walk over included files (which file comes next, each once).
  - `lib.rs` — comment-block widths and `format`, the whole pipeline.
- `tests/` — the test suite.
- `app/` — the `beanfmt` command: argument parsing (clap), configuration files
  (serde, toml), reading and writing files, resolving include paths (glob).

Each module ends with its laws: public proof functions stating properties
across calls (idempotence of normalizations, what sorting keeps, how
configuration layers merge, that names read back).
