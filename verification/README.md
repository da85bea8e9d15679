# mc-oblivious-ram

Path ORAM: an array of fixed-size values that can be read and written without
the accesses to its storage telling which value was asked for. The eviction
strategy is exchangeable; those of Path ORAM and, for tests, of Circuit ORAM
are here.

The library under `src/` is verified with Verus. `PathORAM::access` is proved to
behave as an access to an array, whatever random leaves are drawn and whatever
branches the evictor chooses; `src/laws.rs` holds what is proved beyond the
contracts of single functions. What is asked of storage is fixed by the branch
that the block was on and by those that the evictor chooses; two accesses for
which these are the same are proved to ask the same, whatever the keys and the
values. That the timing tells nothing is not stated: the constant-time
comparisons and moves come from `subtle` and `aligned-cmov`, and the code of the
oblivious functions does not branch on what they return.

| Module         | Contents                                                       |
|----------------|----------------------------------------------------------------|
| `tree`         | node indices of the tree                                       |
| `oblivious`    | constant-time primitives, and the metadata of a block          |
| `model`        | slots, buckets and the blocks that they hold                   |
| `details`      | moving a block into or out of a row of slots                   |
| `packing`      | where a block may stand in a branch, and how blocks move there |
| `branch`       | the branch that is checked out                                 |
| `circuit`      | the eviction of Circuit ORAM as a function                     |
| `evictor`      | the eviction strategies                                        |
| `storage`      | the storage of buckets                                         |
| `position_map` | the leaf of every block                                        |
| `rng`          | random nodes                                                   |
| `contents`     | the array that the blocks stand for                            |
| `path_oram`    | the oblivious array                                            |
| `laws`         | what relates several functions                                 |

`app/` puts the array behind the traits of `mc-oblivious-traits`.
