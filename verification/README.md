# device-mapper-tests

A framework for testing device-mapper targets (linear, flakey, dm-crypt,
dm-writeboost) on block devices carved out of memory.

- `src/` is the verified library: sector arithmetic, the free-space pool
  that hands out disjoint pieces of a backing device (with its laws in
  `env/pool_laws.rs`), decimal text of numbers, the table lines of the
  targets, the `dmsetup table` / `dmsetup status` lines, the writeboost
  tunables and status, and the planning of pattern I/O.
- `app/` runs the commands (`dmsetup`, `losetup`, `cryptsetup`, `mkfs.xfs`,
  ...) and the direct I/O, using the library for every decision and text.
- `tests/` checks the library on concrete values.
