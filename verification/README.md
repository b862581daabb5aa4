# bot7685_ext

The core of a Python extension for a chat bot: an LRU dictionary and the
pixel tools of the wplace helpers, written in Verus with their contracts
proved.

- `src/lru.rs`: the LRU dictionary over a model of its entries in recency
  order; `src/lru_laws.rs`: what lookups, writes, removals and resizing do
  to the contents.
- `src/wplace/`: the palette and nearest-color search (`color_map`), RGBA
  rasters and their decoding and PNG encoding through the `image` crate
  (`raster`), template overlay and compare, tile composition, grouping of
  adjacent points, and laws tying overlay and compare together
  (`image_laws`).
- `app/`: the Python bindings (pyo3): argument conversion, threads and
  asyncio futures, the floating-point centers and distances of the point
  grouping.
- `tests/`: tests of the library on concrete values.
