# novaire

The integer core of a yield-tokenization protocol, verified with Verus.

- `src/sy_wrapper`: the standardized-yield share, a vault over one lending-pool
  position. Shares are minted against what a deposit adds to the position and
  redeemed at the rate that the position derives.
- `src/amm`: the market that trades principal tokens against those shares, and
  yield tokens by way of the tokenizer. It holds the fixed-point logarithm and
  exponential, the price curve, the searches over it, and the books.
- `src/ledger.rs`, `src/governance.rs`, `src/arith.rs`, `src/address.rs`: what
  both share.
- `src/amm/laws.rs`, `src/sy_wrapper/laws.rs`: what holds across operations.
- `src/amm/exactness.rs`: how closely the fixed-point exponential and logarithm
  follow the real ones, with `accuracy.rs`, on how closely they undo each other,
  and `real_exp.rs` and `reals.rs`, the exponential over the reals by its series.
- `app`: the two Soroban contracts around the library. They keep the storage,
  check authorization, read the clock and the pool, and move tokens.

Functions that need an answer from another contract come in two steps: the first
prices the operation and names what is to be asked, the second takes the answer
and books the result.
