# ratio

Exact-integer fund accounting, verified with Verus: posting rules compiled
into balanced postings, tax-lot relief under every declared method (FIFO,
LIFO, HIFO, LOFO, holding-period orders, min-tax, specific identification,
average cost), wash sales, partner allocation, views of record (trade and
settlement books) folded in one pass, the shadow-run reconciliation check,
and journal-prefix checkpoints.

Every amount is an integer number of minor units; a division that would
round is refused, and every multiply that could wrap is checked.

Layout:

- `src/` — the library. Each module states its behaviour in `requires` /
  `ensures` over spec functions, and the laws of the library are public proof
  functions (named `law_…`). `src/projection.rs` holds the read model,
  `src/inflight.rs` the reconciliation of two views, `src/checkpoint.rs` the
  checkpoint checks, capture and restore.
- `tests/` — the library exercised on concrete values.
- `app/` — what cannot be verified: TOML and JSON documents, files, and the
  checkpoint directory store.

The one outside call in the library is SHA-256 (`sha2`), behind a wrapper
whose contract names its result; `String::push` is the one std call given a
contract by hand.
