# lumagg

A verified library for the round-trip arbitrage scanner of the LumAgg
router on Stellar/Soroban: the pool math (constant product, stableswap,
weighted Comet pools, concentrated liquidity with its tick bitmaps and swap
simulation), the quote-api answers and round-trip quotes, the size search,
the scan pipeline's decisions, the preparation and submission state machine
of a round-trip transaction and the layout of its contract call, the caches
that keep a path from being submitted twice, the trustline cleaner's
decisions, the statistics and reports.

- `src/` is the library, written in Verus: its functions carry contracts
  that Verus proves, except the few calls into outside crates (`sha2`,
  `stellar-strkey`, `stellar-xdr`) and into the clock. Those stand behind
  small trusted wrappers whose contracts are believed, not proved: each
  states what the outside code does, as its source or documentation shows.
- `tests/` runs the library on concrete values.
- `app/` is the plain-Rust glue: reading the environment, the parts
  computed in floating point, and turning the call values that the library
  lays out into `stellar-xdr` values and envelope bytes.
