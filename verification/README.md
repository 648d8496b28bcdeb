# graphico

A large-scale graph visualizer whose core is verified with Verus.

- `src/` is the verified library: the graph model and its edit operations
  (add, connect, delete, rewire), the chunked spatial grid, the UUID registry
  and the HTTP API's command handling and snapshot, `#RRGGBB` colours and
  label sizes, the two-phase restore from the stored snapshot, the inspector
  panel's contents, the demo generator's tree and request loop, and the
  helpers of the MCP tool server. Every public function states its result in
  its `ensures`; the laws that relate several operations are public proof
  functions (`lemma_*`).
- `tests/` runs the library on concrete values.
- `app/` is the program around it: the Bevy window, camera, rendering and
  layout forces (floating-point work), the axum HTTP server, SQLite
  persistence, the demo's HTTP client and the MCP server (`graphico mcp`).

Positions, colours and other `f32` values cross into the library as their bit
patterns (`Vec2Bits`, `ColorBits`); UUIDs as their 128-bit values.
