# backbone_td

A sampler for backbone traffic that stops sampling flows judged uninteresting
(timed-out flows and elephant flows), with every decision of the sampler
verified by Verus.

- `src/` — the verified library:
  - `flow_table` — a table from flow keys to values, with no key twice.
  - `topk::small_flow_sampling` — the sketch of `h` rows of `w` cells, the
    candidate table of at most `k` flows, the excluded flows, and the
    handling of a packet (`on_pkt_received`: the key and its cells from the
    hasher, then `run_packet`, whose contract `packet_run` states the whole
    packet), step by step (`begin_packet`, `row_index`, `visit_cell`,
    `settle_cell`, `finish_packet`), with the timeout of a matched cell
    decided by a `TimeoutModel`.
  - `topk::min_heap` — the candidate table, over `priority_queue`.
  - `topk::ranking` — the non-empty cells ranked by count.
  - `topk::pq`, `topk::randomness` — the trusted declarations of the outside
    crates `priority_queue`, `ahash` and `rand`.
  - `util` — flow keys, port bytes, per-flow counts, Tor labels (over `csv`),
    random flows, text of numbers and addresses.
  - `capture` — the headers of a captured frame (over `pnet`), the counts
    of a capture run before and after sampling, and the counting of one TCP
    packet of a run (`stat`), which keeps the counts in order and the flow
    tables after sampling within those before.
  - `config` — the command line of a run (over `regex`).
  - `memory_stats` — memory counts of a sampler.
- `app/` — the program: reading the capture and the label file, the
  forecast of flow gaps (floating point, the `TimeoutModel` of the sampler),
  the decay probabilities, logging,
  the Python module, and the memory benchmark.
- `tests/` — tests of the library.
