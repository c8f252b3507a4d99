# rust_labs

Verified building blocks from a set of systems-programming exercises, written
in Verus.

- `src/` is the verified library. The concurrent structures (exchanger,
  executors, producer/consumer buffers, bounded channels, latches, barrier,
  delayed queue) are state machines: each operation is a step on plain state
  whose contract says what it returns and how the state changes, and which
  waits or wake-ups it asks for. The rest is ordinary data logic: a ring
  buffer, a battleship board, a line editor with regular-expression search, a
  tree of switches, slugs and pangrams, prime search and an arithmetic game.
- Outside crates are reached through a few trusted wrappers: `regex` in
  `src/regex_support.rs`, `itertools` in `src/game.rs`, `num` in
  `src/num_even_iter.rs`.
- `app/` is the unverified shell: threads, mutexes and condition variables
  around the state machines, file and directory input, and floating point.
- `tests/` runs the library on concrete values.
