# dua_checker

A verified core for checking the availability of Discord unique usernames
(`@handles`), with a command line (`dua`) and a desktop window (`dua-gui`) around
it. This checks the new unique handles only, not legacy `Name#1234` usernames.

- `src/` is the library, verified with Verus: the steps of a check and the meaning
  of each response, the 3- and 4-letter handle generators, username lists and
  result logs, and what the command line and the window decide and show.
- `app/` is ordinary Rust around it: HTTP requests, files, terminal colors, the
  progress bar and the widgets.
- `tests/` runs the library.

What is not proved is stated where it is used: the random generator in
`src/randomness.rs`, the JSON reader in `src/json.rs`, the clock in `src/clock.rs`,
quoting in `src/cli.rs` and `String::push` in `src/text.rs`.
