# vcs_conflict

Finds the merge conflicts that git and jj leave in a document, tells where a position stands
in them, and compares their sections down to words and characters. The library is written in
Verus: what each function returns is stated in its contract and proved.

- `src/` is the library. `parse`, `locate`, `content`, `pairs`, `refine` and `words` hold what
  callers use; `text`, `tokens` and `diff` hold what these build on, among it the declarations
  of the two crates that the library calls, `ropey` and `imara_diff`.
- `src/laws.rs`, `src/append.rs` and `src/written.rs` prove what holds of every document. Proof
  functions whose names start with `law_`, there and in other modules, are statements about the
  library as a whole.
- `tests/` runs the library on examples.
