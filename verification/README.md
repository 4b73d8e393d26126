# kr_worldgen

The Korean-data side of a Minecraft world generator for Busan: road
network, buildings, bus stops and routes, and the terrain cache, as a
library whose behaviour is stated in Verus contracts and proved.

## Layout

- `src/` — the verified library.
  - `roads/` — link grades and cross-sections, the `.dbf`/`.shp` readers,
    the raw node/link records, the slope limit and regression counts of the
    network, where crosswalks go, the block sweep that writes road surfaces
    and the proof that every road write stays in its segment's box at its
    surface height.
  - `buildings/` — use groups, eras and heights, the planned building and
    its invariant, road-overlap and detail decisions, facade and roof
    writes, site grading (with the proof that a building's box holds all of
    it), the terrain-spread summary and the service-drop index.
  - `bus_routes.rs`, `bus_stops/`, `transit.rs`, `route_report.rs` — the
    route CSV, stop-name matching without geometry, the stop document and
    the per-route report table.
  - `terrain_cache/` — the cache file format: encoder, decoder and the
    proof that a file written for a key reads back the same ground.
  - `manifest.rs`, `projection.rs`, `text.rs`, `world.rs` — dates, the
    projection names, text helpers and the block-write record.
- `tests/` — the tests, run against the compiled library.
- `app/` — what stays outside the proofs: file I/O, JSON output, console
  reports, and the floating-point geometry (projection, rasterizing, the
  height solve, shortest paths, route-wide stop matching).

## Not included

- The street-furniture drawing passes (utility poles and wires, bus-stop
  shelters and signs, crosswalk and stop-line painting). They need the
  curb-side furniture column, sidewalk and carriageway widths per grade, a
  line rasterizer and the editor's ground-height query, none of which is
  part of this code base. What they decide on plain values is here: the
  crosswalk approaches (`roads::crosswalk`), the service-drop index and the
  nearest-building search (`buildings::service_drop`), and the column hash
  (`roads::coord_hash`).
- The latitude/longitude coordinate transformer of the generic world
  pipeline. Its bounding-box and point types are not part of this code
  base, and its arithmetic is floating point.
