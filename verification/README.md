# staked_validators_cache

A cache of the Alpenglow sockets of all staked validators, per epoch. Entries live in a
least-recently-used map of bounded size and for a bounded time; a changed port override takes effect
at the next read.

`src/` is a Verus library: every function is proved against its contract.

| module             | what it holds                                                              |
| ------------------ | -------------------------------------------------------------------------- |
| `cache`            | `StakedValidatorsCache`, and the state transitions of a read               |
| `nodes`            | from the stakes of an epoch to the list of sockets, by ascending stake     |
| `entries`          | the sequence of entries by recency of use, and how it changes              |
| `lru_store`        | the trusted contracts of `lru::LruCache`                                   |
| `bank`, `gossip`   | what is read of the banks and of the gossip table, as plain values         |
| `port_override`    | sockets that replace those from gossip                                     |
| `net`, `time`      | keys, sockets, instants                                                    |
| `laws`             | what holds of any read, of two reads in a row, and of any run of reads     |

What is trusted: `lru::LruCache` (in `lru_store`), `solana_epoch_schedule::EpochSchedule::get_epoch`
(in `bank`) and std's `sort_unstable_by_key` (in `nodes`).

`app/` ties the library to live bank forks and gossip: it takes a snapshot of what a read needs, hands
it over and converts the result. `tests/` runs the library with the outside crates linked.
