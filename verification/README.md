# analyzer

Treewidth analysis of control-flow graphs, as a Verus-verified library with a
thin command-line program around it.

## Layout

- `src/graph.rs`: undirected graphs as adjacency lists; construction from an
  edge list (self-loops, out-of-range ends and repeated edges are dropped) and
  the edge count.
- `src/treewidth/`: upper bounds on treewidth by greedy vertex elimination.
  - `elimination.rs`: the elimination game over neighbour sets (`eliminate`,
    `order_width`, the min-degree and min-fill priorities) and the facts the
    heuristics rest on.
  - `adjacency.rs`: sorted adjacency lists, the merge, the elimination step
    (`contract`) and the fill-in count.
  - `min_heap.rs`: an indexed 4-ary min-heap with key updates, its slots
    specified operation by operation (sift up, sift down), with the laws
    that popping until empty returns every entry once in key order.
  - `native.rs`: min-degree and min-fill driven by the heap; `compute` takes
    the smaller width, a function of the graph's edges alone.
  - `scan.rs`: the same heuristics choosing each vertex by a linear scan
    (`Solver::Native`).
  - `forest.rs`: cycles and forests; both drivers give width 1 exactly on
    forests with an edge, and 2 on graphs of paths and cycles with a cycle.
  - `complete.rs`: on a complete graph on `n` vertices both drivers give
    `n - 1`.
  - `flowcutter.rs`: the FlowCutter oracle over its C interface (unavailable in
    this library), with the edge arrays and status codes of that interface.
  - `subprocess.rs`: the decisions around running FlowCutter as a program:
    the PACE input text, timeouts, and reading the tree decomposition back.
- `src/stats.rs`: integer summary statistics (count, sum, median, maximum,
  counts at most 3 and 6, distribution), split by safe and unsafe functions.
- `src/results.rs`: the per-function result rows and what is derived from
  them: the oracle check's verdict and reports, CSV records, the ranking by
  treewidth, the summary and the printed distribution.
- `src/crate_list.rs`: the comma-separated list of crates to extract, and
  the test of a crate against it.
- `src/cfg.rs`: control-flow graph extraction from per-block data (cleanup
  blocks dropped, blocks renumbered, jumps deduplicated).
- `src/samples.rs`: small functions with known control-flow shapes.
- `src/text.rs`, `src/seq_lemmas.rs`: message building and counting lemmas.
- `app/`: the analyzer program (argument parsing, JSONL input, parallel
  computation, CSV and JSON output, printing, running the solver program),
  and the rustc driver that extracts graphs from MIR.
