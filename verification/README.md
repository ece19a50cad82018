# puppies

Incremental item-to-item indicators from a stream of user-item interactions.

Each user keeps a down-sampled history of at most `K_MAX` items, and each item
is sampled into at most `F_MAX` histories; full histories are maintained by
reservoir sampling. The co-occurrence matrix of the sampled histories, its row
sums and its total are kept up to date one interaction at a time. After each
batch, every item whose row changed is rescored: each of its partners gets a
2x2 contingency table, the table gets a log-likelihood ratio score, and the
`k` best-scoring partners become the item's indicators.

## Layout

- `src/` — the verified library (Verus):
  - `cooccurrence.rs`: the sampled histories and the co-occurrence matrix,
    the interaction step and its contract, contingency tables, and the laws
    the state keeps (symmetry, row sums, total, sampling bounds);
  - `counting.rs`: counting over histories and the lemmas behind the above;
  - `topk.rs`: selection of the `k` best-scoring candidates;
  - `utils.rs`: batching of the interaction records and millisecond
    conversion;
  - `fnv_collections.rs`, `random.rs`: the `fnv` map and set and the `rand`
    generator, seen through stated contracts.
- `tests/` — tests of the library.
- `app/` — the program: command line, file reading, timing, the
  floating-point scores, and the parallel rescoring.
