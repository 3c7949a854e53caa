# hyphae

Incremental queries over reactive maps, verified with Verus.

A source of rows tells how its rows change as diffs: a new beginning, an inserted, updated or removed
row, or a batch of these. A plan says how rows become other rows: projections, filters, groupings,
joins by key, by relationship and by several keys, and regions of joins that work as one. A plan is
built into a runtime, which follows the diffs of its sources and tells its own.

What the runtimes keep is stated over the models of rows, as maps and sequences, and so is what they
tell: a diff fits the rows that were told before, and leads to the rows that the plan gives now.

## Layout

- `src/value.rs`, `src/func.rs`, `src/row_fns.rs`: rows, keys, and the functions that plans apply to
  them.
- `src/diff.rs`, `src/delta.rs`, `src/index.rs`, `src/ordered_set.rs`: diffs, what leads from one map
  to another, and rows by their join key.
- `src/query.rs`: what a plan is.
- `src/map_values.rs`, `src/select.rs`, `src/project.rs`, `src/project_many.rs`, `src/count_by.rs`,
  `src/group_by.rs`: plans over one source, with the runtimes in `src/stateless_runtime.rs`,
  `src/map_runtime.rs` and `src/diff_runtime.rs`.
- `src/projection_laws.rs`, `src/join_runtime/source_laws.rs`, `src/join_region/region_laws.rs`: what
  the runtimes have told, over the rows of their sources, however the diffs of these have come.
- `src/inner_join.rs`, `src/left_join.rs`, `src/left_semi_join.rs`, `src/multi_left_join.rs`: plans
  over two sources, with the runtimes in `src/join_runtime/` and `src/multi_join_runtime.rs`.
- `src/join_region/`: regions of joins, worked on by one runtime or in shards.
- `src/project_cell.rs`, `src/select_cell.rs`, `src/map_values_cell.rs`: rows that follow cells.
- `src/dep_node.rs`: the dependencies of cells as a tree.
- `src/fx.rs`, `src/guards.rs`, `src/parallel.rs`: the tables, hash codes and worker pools that the
  library has from other crates.
- `app/`: maps, subscriptions, locks, callbacks and the worker pool around the library.
