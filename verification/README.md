# libcachesim

A cache simulation library whose logic is proved with Verus.

- `src/` — the verified library:
  - `request`, `stats`, `cache`, `error`: requests, counters, the `Cache` trait with
    the abstract state (`CacheModel`) its contracts speak of, and the laws every
    cache keeps (`law_*` in `cache.rs` and `stats.rs`);
  - `eviction/`: FIFO, LRU, MRU, Clock, Random, LFU, LFUDA, SLRU, ARC, CAR, SIEVE,
    S3-FIFO and 2Q, each with a model of its lists and a contract per operation;
  - `basic/`: a smaller simulator (FIFO, LRU, Clock) with `simulate_cache`;
  - `trace/`: the LCS binary record decoder, the CSV record parser, and the choice
    of format for a trace file;
  - `ordered`, `sweep`: lemmas on lists of ids and on clock-hand sweeps.
- `tests/` — tests of the library.
- `app/` — what stays outside the proofs: file reading, serde and thiserror copies
  of the library's types, and the hit and miss ratios in floating point.
