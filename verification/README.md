# crev_repo

What a code review tool has to know of a Rust project, verified with Verus: the dependency graph of
its packages, the selection of a package by name and version, the removal of directory sources from
Cargo's configuration, and the editing of a review.

- `src/` is the library. It works on plain values; its functions state what they return, and those
  named `law_..` state what holds of several of them together.
- `app/` is ordinary Rust around it: Cargo's workspaces and registries, the compiler, the
  environment, the editor.
- `tests/` runs the library together with the crates that it calls.

The proofs rest on what is stated of the outside functions that the library calls: the graph of
`petgraph` (`src/store.rs`), the versions of `semver` (`src/version.rs`), the parser of
`cargo_platform` and `std::str::from_utf8` (`src/platform.rs`), and two functions on characters and
strings (`src/text.rs`).
