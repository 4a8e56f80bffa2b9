# cargo-lock-align

Aligns the versions in a project's `Cargo.lock` with those of an older lock file. Every package
that the older file has on the same semver compatibility line is moved to the version, or to the
git revision, that is locked there. Cargo itself makes the updates, one at a time: after each one
the dependency graph is read again.

```
cargo lock-align --old-lock /path/to/old/Cargo.lock --manifest-path /path/to/new/Cargo.toml --dry-run
```

## Layout

- `src/` is the verified library: Verus proves its functions against their contracts.
  - `text`, `version`, `source`: strings, semantic versions, package sources
  - `package`, `candidate`: which lock file entry stands for a package, and what is decided of it
  - `graph`, `tables`: the dependency graph, and the tables of a run
  - `collect`: the walk that finds the packages to be updated
  - `order`: the order of the updates, parents first
  - `lockfile`: reading a lock file
  - `align`: the passes of a run
  - `laws`: what holds of every walk and every pass
- `app/` is the command line around it: files, Cargo, output.
- `tests/` runs the library.

What the library takes on trust of the `semver` and `toml` crates is written above each function
that calls them.

## Rules

- A version is only replaced by one on the same compatibility line: the same major number, for
  `0.y.z` the same `0.y`, for `0.0.z` the same version numbers.
- Git sources are compared without their revision and with percent escapes resolved.
- An entry without a source stands for a registry package of the same name: that is how a patched
  package is locked. It never stands for a git package.
- A package is updated before the packages it depends on. Packages that depend on each other in a
  circle, and what waits for them, come last by name.
- `--max-depth 1` looks at direct dependencies only, `2` at theirs as well, and so on. The depth of
  a package goes by the shortest way to it.
