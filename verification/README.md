# rostl

Oblivious data structures and algorithms whose memory accesses do not depend on the data
they process, written in Verus. Apart from a few trusted wrappers around calls into `rand`,
`ahash` and `std`, Verus proves every function of the library free of panics and
overflow and proves its contract; how much a contract says varies: the sorting
networks, compaction, Circuit ORAM, the position map, arrays, the stack and the queue have
contents models, while for the hashed maps only sizes, the deamortization queue and the
batch plumbing are stated: a batch plan refuses whenever a partition gets more distinct
keys than it has slots, and the answers of the partitions are put back in batch order
exactly (see below).

## Layout

- `src/primitives`: conditional moves and swaps (`Cmov`), oblivious options, power-of-two
  helpers.
- `src/sort`: bitonic, Bose-Nelson and Batcher sorting networks, stable compaction and its
  inverse distribution, rotation, shuffling. Bitonic, Bose-Nelson and Batcher sorting are
  proved to sort under a total order (`src/sort/odd_even.rs` holds the argument for
  Batcher's merges); both compactions are proved stable and distribution proved to undo
  compaction.
- `src/oram`: linear ORAM, Circuit ORAM (eviction, proved to keep every block on its path
  and to move a stash block down whenever one can go to a level with room; path reads and
  writes; read / write / update with a contents model and read-after-write), the recursive position map, and the
  heap tree layout.
- `src/datastructures`: fixed, long, dynamic and multi-way arrays, vectors, stacks (a
  last-in, first-out contents model), queues,
  the path-oblivious heap (the metadata tree is proved to keep a minimum at every node, so
  `find_min` reports an element of smallest priority), the cuckoo-hashing map and the
  sharded map.
- `src/storage`: page storage.
- `src/random.rs`: the calls into `rand` that pick random positions.
- `app/`: thread plumbing for the sharded map and debugging printers, outside Verus.
- `tests/`: tests run against the compiled library.

Contracts on ORAM-backed structures hold on valid states and are conditioned on the stash
having room where an access could overflow it; that overflow happens with negligible
probability. The maps place keys by `ahash` hashes, whose values depend on random keys and
on the machine, so no contract says in which bucket or partition a key lands; what a
lookup of the cuckoo map or the sharded map returns is therefore not stated.
