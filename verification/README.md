# maze_core

Chain-agnostic maze routing for privacy-preserving transfers, written in
Verus. A transfer enters a deposit node, is split, passed on and merged
across a configurable number of hop levels (optionally through a pool
relay), with deterministic amount noise at each node, and converges on a
single final node.

## Layout

- `src/plan.rs` – the topology as a mathematical object: what the generator
  builds for given parameters and amount (`spec_outcome`), before any address
  is drawn.
- `src/topology.rs` – `MazeGenerator` (planning, `generate`, `try_generate`,
  `assemble`) and the `MazeGraph` queries, each proved against `plan.rs`.
- `src/laws.rs` – properties of every generated maze, stated and proved:
  edges go up one level, inputs precede outputs, all paths converge on the
  final node, equal parameters give equal topologies, and more.
- `src/headroom.rs` – validated parameters with a bounded fee and amount
  never overflow the generator's fixed-width arithmetic.
- `src/params.rs`, `src/utils.rs`, `src/error.rs`, `src/text.rs` – parameters
  and their validation, Fibonacci numbers, the SHA-256 seeded random numbers,
  amount noise, error texts.
- `src/address_gen.rs`, `src/solana.rs` – the `AddressGenerator` trait, a
  hex test generator and the Solana keypair generator.
- `app/` – a small demo program and serde/thiserror copies of the public
  types.

## Fixed point

Amounts and ratios are integers throughout: the split ratio is written in
thousandths (`1618` for the golden ratio 1.618) and the amount noise in
hundredths of a percent (`50` for 0.5%). The split and merge thresholds
compare `level / hop_count` with 0.3, 0.5 and 0.7 exactly, by integer
cross-multiplication.
