# ultravec

Low-bit vector compression and approximate nearest-neighbour search. The library under `src/` is
written in Verus: packed records, the lattice and coset-trellis codecs, pulse codes, the graph and
inverted-file indexes, ranking, recall, the paired bootstrap, vector files, the command line and
the reports are stated in contracts and proved.

Floating point stays outside. Similarities enter the library as integer order keys, vectors as bit
patterns, and lattice coordinates in fixed point. `app/` holds what works on floats and on files:
the rotation, the scalar codecs, k-means, and the commands.

- `src/beam.rs`, `src/links.rs`, `src/hnsw.rs`, `src/graph.rs`: proximity graphs
- `src/lattice.rs`, `src/e8.rs`, `src/viterbi.rs`, `src/coset_trellis.rs`: lattice codes
- `src/packing.rs`, `src/pvq.rs`, `src/bignat.rs`, `src/codecs.rs`, `src/dehub.rs`: records and rates
- `src/ivf.rs`, `src/scored.rs`, `src/order.rs`: inverted files and ranking
- `src/bench.rs`, `src/pareto.rs`, `src/page.rs`, `src/bench_report.rs`, `src/sweep_report.rs`:
  comparisons and their pages
- `src/datasets.rs`, `src/text.rs`, `src/cli.rs`, `src/plans.rs`: files and the command line
- `src/prng.rs`, `src/rotation.rs`, `src/memory.rs`, `src/dist.rs`: shared pieces
