# tong

The verified core of a build system for Rust workspaces.

- `src/` is the library. Every function in it carries a contract that Verus
  proves (a few calls into other crates are trusted, and say so): the import of
  Cargo workspaces, feature resolution, profiles, the plan of a build and its
  actions, build-script directives, the content-addressed store (trees, closures, assembly, capture, materialization), build state,
  garbage collection, and toolchains.
- `tests/` run the library on concrete values.
- `app/` is ordinary Rust around it: files, processes, downloads and TOML. What it
  needs of the embedding program (hashing, the canonical encoding, platform
  facts) is the trait `Services`.

The library touches no disk. A function whose answer rests on what is on disk
takes the facts that are known; where one is missing it names it, and the caller
looks it up and asks again.
