# simple_lanelet2

A Verus-verified core for Lanelet2 road maps: the routing graph and the
searches over it, routes and their lane numbering, the German traffic-rule
tables, and the classification that decides how a map primitive is drawn and
how a browser viewer is told about it.

## Layout

- `src/` — the verified library. Each public function states what it returns
  in its `ensures`; public `proof fn`s state the properties that span several
  functions.
  - `graph`, `paths`, `walks` — a directed multigraph with insertion-ordered
    edges; Dijkstra, bounded reachability, and the enumeration of simple paths.
  - `routing`, `building`, `route` — the lanelet routing graph, how it is built
    from lanelets and traffic rules, and the corridor a route keeps.
  - `relation`, `traffic_rules`, `accept`, `registry`, `attributes` — relation
    masks, who may drive where and at what speed, argument registration, tag maps.
  - `style`, `source`, `scene`, `summary`, `wire`, `text`, `strings` — drawing
    styles, layer order, scene options and labels, and the JSON the viewer reads.
- `tests/` — tests run against the compiled library.
- `app/` — what stays outside verification: the Python extension module, the
  WebAssembly entry points, and the floating-point cost models that turn
  geometry into the whole-number costs the graph works in.

Costs in the graph are whole numbers; a cost model that measures in metres or
seconds scales its result into them in `app/`.
