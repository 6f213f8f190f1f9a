# velnor-actions-generator

Release and package policy for a fleet of mirrored action repositories, written
in Rust and verified with Verus.

- `src/package.rs`: the package table with its six consumers, and the workflows
  rendered from it.
- `src/release.rs`: the release table, and the signer tables rendered from it.
- `src/agreement.rs`: the agreement of the releases with the package table and
  the fork table.
- `src/mirror.rs`, `src/tree.rs`: the live check that the mirrors of a release
  are identical. It asks one question at a time and takes the answers.
- `src/calver.rs`, `src/time.rs`, `src/model.rs`: release names, UTC time stamps,
  object IDs and the fork table.
- `src/text.rs`, `src/failure.rs`: texts, and checks that stop at the first
  failure.
- `src/laws/`: what holds across the functions above.
- `app/`: reading the tables and the workflow templates from disk, and asking
  the mirrors through `gh`.

The one outside function that the proofs rest on is the formatter behind `{:?}`
for string slices; see `text::quoted`.
