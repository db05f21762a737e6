# lpm

A package manager for Debian-style repositories: it reads `sources.list` and
`sources-list.toml` entries, downloads and caches package indexes, resolves install,
remove, upgrade and autoremove requests into a transaction plan, unpacks `.deb` files,
keeps its own database of installed packages with a history that can be undone, and
keeps the dpkg status file in step.

## Layout

- `src/` is the library, written in Verus: every function there has a contract that Verus
  proves. It holds the parsers (sources, indexes, control stanzas, `.deb` and tar
  archives, the dpkg status file, the command line), the version order, the package cache,
  the resolver the program plans with, the installed database, and the text the program
  shows. A second resolver, `sat::SatResolver`, states a request as a formula for the
  `varisat` SAT solver; the program does not use it (`solver::resolve_with_sat` answers
  that it is not built in), but it stands in the library with its proofs and tests. Calls into outside crates (decompressors,
  `tar`, `varisat`, `lexopt`) sit behind small trusted wrappers whose contracts say what
  the crates' sources show.
- `app/` is the program around the library: the file system, the network, processes,
  SQLite storage, the terminal and progress bars. It hands the library plain values and
  acts on what comes back.
- `tests/` runs the library on concrete inputs.
