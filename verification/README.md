# eta_graph

A graph library whose vertices keep their edges in fixed blocks of one flat
array, with traversals, shortest routes and a layered maximum-flow search.
The code in `src/` is verified by Verus: functions whose results matter
carry contracts over an abstract model of the graph, and the calls into
`eta_algorithms` go through a few trusted wrappers (see `containers`).

Layout of `src/`:

- `handles`: edges packed into 64 bits (target in the low half, weight in
  the high half), with the laws that packing and unpacking undo each other.
- `edge_storage`, `vertex_storage`, `graph`, `weighted_graph`: the edge
  blocks, the vertex values and the graph built from both.
- `edge_data`, `tree`: two flat layouts where each block starts with a small
  header.
- `views::tree`: a tree read out of an edge store (root and parent kept in
  the first two slots of each block).
- `paths`: paths, reachability and hop distances over the abstract model.
- `algorithms::general`: breadth-first and depth-first traversal.
- `algorithms::path_finding`: A* and Dijkstra's algorithm.
- `algorithms::max_flow`, `algorithms::flow_model`: the layered search for
  a flow and the sums it is reasoned about with.
- `containers`: the fixed-capacity array, queue and stack of
  `eta_algorithms`, behind wrappers whose contracts are trusted.

`app/` holds the parts that print.
