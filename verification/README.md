# craws

A tiled, content-addressed image pipeline. Images are grids of 256×256 tiles,
every tile carries a BLAKE3-derived name, and a byte-budgeted LRU cache lets a
re-run of a pipeline skip every step whose output tiles are already known.

## Layout

- `src/` — the library, verified with Verus. Geometry and pipeline validation
  (`geometry`, `pipeline`), content naming (`hash`), tile grids (`tile`),
  whole-image gathers and region edits (`ops`), composition and mosaics
  (`compose`, `mosaic`), the tile cache and the engine's cache planning
  (`cache`, `engine`), session handles (`session`), parameter parsing and
  tool parameters (`parse`, `tools`), codec framing (`codecs`), colors
  (`color`) and preview framing (`preview`). Colour arithmetic on
  floating-point pixels is passed in as closures; contracts state results in
  terms of what those closures return.
- `app/` — the `craws` command-line program and MCP server: file and network
  I/O, JSON, the floating-point kernels (resampling, blur, tonal ops, vector
  shapes, text), and the executor loop that runs them around the library's
  cache planning.
- `tests/` — tests of the library on concrete values.
