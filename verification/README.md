# Adaptive filter search

Label-filtered nearest-neighbor search with a search list that adapts to the filter.

A filter says of each vector whether a query may return it. The search goes through the graph by
all nodes, samples how many of the neighbors on its way match, and makes its search list longer
the fewer do.

- `adaptive` computes the list length from the sampled match rate. Below one match in ten the
  multiplier is two to the power of the negative decimal logarithm of the rate, up to sixteen.
- `log_scale`, `log_bounds`, `log_accuracy`, `log_order` and `powers` compute that power in fixed
  point and prove how close it comes.
- `greedy` holds the decisions of the search, `greedy_laws` what follows from them over a whole
  search, and `search` its parameters, statistics and candidates.
- `labels`, `filters` and `bitmap` hold the filters; bitmaps are `bit_set::BitSet`.
- `predicates` and `decimal` read vector ids out of equality predicates.
- `benchmark` holds a batch of queries with one filter each.
- `disk_index` holds the stubs for benchmarks that are not built in.

`app` does what needs files, asynchronous code or a real index.
