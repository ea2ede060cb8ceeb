# aur_depends

A dependency solver for the Arch User Repository, written and proved in Verus.

Given targets of the sync databases, of pkgbuild repos or of the AUR, it works out what has to be
installed and what has to be built, in which order, what is only needed to build, what is missing
and what conflicts. It also finds the installed packages that can be upgraded.

- `src/` is the library. It does no I/O. What libalpm knows comes in through the `Alpm` trait, and
  the AUR is asked in rounds: `Resolver::cache_targets` and the `on_*` methods say what to look up
  next, and take the answers.
  - `model.rs` is the mathematical state of the resolver, and `resolve/` the resolver itself.
  - `resolve/laws.rs`, `resolve/laws/`, `resolve/choice.rs`, `resolve/circle.rs` and
    `resolve/depth.rs` hold what resolving promises as a whole, `resolve/rounds.rs` what looking
    packages up does.
  - `conflicts.rs` finds conflicts and duplicates in the outcome, and `conflicts/inner.rs` says which
    of them make dependencies bring.
- `tests/` runs the library on small made-up databases.
- `app/` connects the library to libalpm and to the AUR RPC.
