# reth-usdc-indexer

An index of USDC transfers and balances that runs inside a [Reth](https://github.com/paradigmxyz/reth)
node as an execution extension, with its logic verified in [Verus](https://github.com/verus-lang/verus).

The node hands over committed, reorganized and reverted chains. The indexer filters the `Transfer`
events of the USDC contract and keeps three tables:

- `transfers`, an append-only event log, is the source of truth;
- `balances` is derived from it, one row per address, with the block of the last change;
- `sync_state` holds the highest fully processed block.

| Notification | Action |
|---|---|
| `ChainCommitted` | append the new transfers, patch the balances forward |
| `ChainReorged` | roll back to the fork, then apply the new chain |
| `ChainReverted` | roll back to the fork |

A rollback drops the events after the fork and rebuilds the balances from the events that remain,
in arithmetic that does not overflow. It is exact wherever no address would be left with 2^256 or more,
as `law_rollback_is_exact` in `src/laws.rs` says; where one would, the rollback fails and changes
nothing. `law_index_stays_correct` says what holds after any run of notifications.

The rebuild reads the value of an event as an SQL cast to an integer does: white space and a sign may
come first, and what follows the leading decimal digits is ignored. The values that the indexer writes
are decimal, and each of them counts in full.

## Layout

```
src/types.rs       the USDC address, the event signature, the decoding of events
src/db.rs          the tables: append, rollback, queries
src/exex.rs        what each notification does, the extraction of transfers from a chain
src/ledger.rs      the model in which the contracts speak
src/laws.rs        what holds across operations
src/text.rs        the stored texts of addresses and amounts
src/primitives.rs  addresses, words and amounts, and the calls into alloy-primitives
src/rows.rs        stored rows
src/values.rs      how the values of the event log are read
src/table.rs       the balance table
src/total.rs       sums wider than an amount
src/totals.rs      the sums of a log, by address
app/store.rs       SQLite: reads the rows that an operation needs, writes those that come back
app/exex.rs        the notification loop
app/bench.rs       lookup latency of the balance table
app/main.rs        node builder
```

The functions marked `external_body` in `src/primitives.rs` call `alloy-primitives`; their contracts
are taken on trust. Everything else in `src/` is proved.

The database path is taken from `INDEXER_DB` and defaults to `./indexer.db`. With `bench-balance` as
its first argument the program measures balance lookups instead, on a database of its own whose path is
taken from `BENCH_DB`.

## Limits

- One token: USDC on Ethereum mainnet.
- Balances reflect `Transfer` events. An address that receives while the log has taken more from it
  than it gave, such as the zero address on a burn, is shown with what it received until the next
  rollback, and with nothing afterwards.
