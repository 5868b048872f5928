# percolator_prog: oracle ring

A ring buffer of oracle snapshots for prediction markets, verified with Verus.
A ring is an array of `RING_LEN` entries. Pushing overwrites the entry with the
oldest timestamp; readers ask for the newest entry or for the average
probability over the entries that are recent enough.

- `src/state.rs`: the entry.
- `src/oracle_ring.rs`: the operations, each with an exact contract.
- `src/model.rs`: the functions on sequences of entries that the contracts use.
- `src/laws.rs`: what holds across operations: pushes rotate through the slots,
  reads give back the pushes, clamped readings and their average stay in the
  domain, the average depends on neither slot order nor stale entries.
- `src/lemmas.rs`: facts that the proofs share.
