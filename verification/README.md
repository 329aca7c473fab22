# gig_marketplace

Escrow logic of a freelance marketplace on the Stellar ledger, verified with
Verus.

- `src/` is the verified library. `marketplace`, `service_listing` and
  `dispute` each hold one contract as a state machine over plain values;
  `common` holds addresses, token transfers, the platform fee and sums.
  Every call either is refused with an error and leaves the state as it was,
  or returns the new state's transfers and event. Each contract's module
  states and proves its laws: the escrow moves by exactly the transfers a
  call returns (for settling a dispute, where both awards are non-negative;
  for accepting a delivery, where the order's fee is non-negative), records
  only move forward, and the well-formedness invariant is kept.
- `app/` is the Soroban contract glue: authorization, storage, token
  transfers and events around the library's calls. It reads and rewrites a
  contract's whole storage on each call, so its cost grows with the number
  of records; the three contracts share one crate and are meant to be built
  one at a time.
- `tests/` runs the library, applying the returned transfers to a small
  balance table.
