# chunkah

Groups the files of a root file system into components, so that image layers can
follow what changes together. The library is verified with Verus: its functions state
what they return, and the laws that relate them are proved.

- `src/path.rs`, `src/path_map.rs`: paths as sequences of components, their order,
  and maps keyed by path.
- `src/rootfs.rs`, `src/canonical_laws.rs`: what has been read of the root file
  system, and the resolution of symbolic links.
- `src/components.rs`, `src/component_map.rs`, `src/ranking.rs`, `src/repos.rs`,
  `src/sorting_laws.rs`: repos, their order, and the sorting of files into
  components.
- `src/record.rs`, `src/record_laws.rs`, `src/pip.rs`, `src/pip_laws.rs`: the repo
  of installed Python distributions.
- `src/stability.rs`: how often a component changes.
- `src/size.rs`, `src/number.rs`, `src/text.rs`, `src/lists.rs`, `src/clock.rs`,
  `src/host.rs`: sizes, numbers, text, sequences, points in time, and the running
  system.
- `app/`: reading the file system, floating-point probabilities and reporting.
- `tests/`: the library at work.
