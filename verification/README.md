# dataflow_migration

Planning of migrations of a data-flow graph. A migration adds operators to a graph; its plan says

- by which base table column each operator is sharded, and along which edges data has to be
  shuffled because operators are sharded differently,
- which state is materialized, under which keys, and where a second copy of the state is needed
  because a key does not fit the sharding,
- which of the state is kept in full, and over which paths the rest is replayed on demand.

The library is written in Verus: what each function does is stated in its contract and proved. The
graph itself is a `petgraph` graph; the functions in `src/dataflow.rs` that call `petgraph` are the
only ones whose contracts are taken on trust.

| module | what it holds |
| --- | --- |
| `migration` | `State`, `Migration`, and the plan as a whole |
| `dataflow`, `operator`, `sharding` | the graph, its operators and the weights of its edges |
| `resolve` | which base table column a column comes from |
| `assign`, `inherit` | how operators are sharded, by lookups and by parents |
| `materialization` | what is materialized, and by which keys |
| `reshard` | mirrors for keys that do not fit |
| `visit`, `ancestry` | the order of the visit, and what is above an operator |
| `replay`, `trim` | how state is kept, and the paths it is replayed over |
| `takeover`, `order`, `decision`, `guarantee` | laws over these |
