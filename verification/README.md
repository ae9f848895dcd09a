# rengine

Pieces of a small game engine, with their behaviour proved by Verus.

## Layout

- `src/` is the verified library.
  - `collections/ordered_dag.rs`: a directed acyclic graph whose nodes keep
    their outgoing edges in order. Adding an edge that would close a cycle is
    refused; walks in pre-order, post-order and over a node's children;
    sorting the edges; the text dump of the graph.
  - `collections/paths.rs`: paths, reachability and cycles over an adjacency
    map, with the lemmas the graph's proofs rest on.
  - `collections/edge_order.rs`: the order in which edges are sorted.
  - `collections/slots.rs`: the slot map that hands out node ids.
  - `gui.rs` and `gui/`: the widget graph, the hover and press state that
    mouse input moves, widget mesh indices, the widget tree's debug print.
  - `comp/mesh.rs`: world mesh indices, quads and six-faced pseudocubes.
  - `intern.rs`: string interning.
  - `metrics.rs`: counters, timers, time slots and history limits.
  - `modding.rs`: mod commands and the rules on mod and file names.
  - `option.rs`: combining options.
- `tests/` exercises the library.
- `app/` is the runtime around it: thread-local interning, the metric hub's
  worker thread, mod loading and Lua script runners, GUI input handling,
  world mesh vertices and the floating-point helpers.
