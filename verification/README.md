# aegis

The data and logic core of the aeGIS globe viewer, verified with Verus,
and a thin native program around it.

## Layout

- `src/` — the verified library (`aegis`):
  - `protobuf` — a bounds-checked protobuf wire-format reader (varints,
    tags, length-delimited fields, skipping, zigzag, packed fields).
  - `mvt` — Mapbox Vector Tile decoding of the `building` layer into
    rings and heights.
  - `tile`, `bm_tile` — XYZ / GIBS tile addressing, tile rectangles,
    parents, URLs, and image decoding through the `image` crate.
  - `tile_cache` — the renderer's bookkeeping of loaded, in-flight and
    failed tiles, and the draw order.
  - `body` — the Earth / Mars / Moon basemap catalog and URL templates.
  - `orbit` — TLE text ingest and satellite categories.
  - `search` — recognising typed coordinate expressions; the search
    box's debounce / stale-reply state machine; moving the highlight
    through search results.
  - `vector` — choosing a GeoJSON feature's display name.
  - `net` — the HTTP status decision and its error type.
  - `text` — character-level string helpers shared by the above.
- `tests/` — tests of the library.
- `app/` — the native program: floating-point geometry (projection,
  camera, fly-to, sun, SGP4 propagation, building meshes, GeoJSON
  overlays), HTTP and thread plumbing.
