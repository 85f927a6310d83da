# ink_ribbon

The data side of the Ink Ribbon map, verified with Verus: the `scene.bin`
format that holds the authored floors, the per-slot player save, the 1-bit
raster masks and the baking of navigation grids and lookup tables.

Layout:

- `src/wire.rs`: little-endian encodings, byte writers and the read cursor.
- `src/scene.rs`: scenes and floors, their records and `scene.bin`
  (reading every format version since 1, writing the current one).
- `src/save.rs`: player saves and the UTC timestamp text.
- `src/calendar.rs`: the Gregorian calendar and zero-padded decimals that the
  timestamp is written in.
- `src/raster.rs`: masks, dilation, erosion and the exterior flood fill.
- `src/bake.rs`: the walk grids, door carving, overlay compositing, and the
  stair and item tables.
- `src/walls.rs`: wall outlines on the compressed cell grid: boundary faces
  merged into maximal runs (so overlapping or abutting rooms leave no
  internal wall), miter corners, and filled runs.
- `app/`: the float geometry around the library (rectangle and rotated-box
  rasterisation, compressing rectangles into the wall grid and placing its
  lines in pixels, and the baker that calls the library).

Coordinates are `f32` in the map; the library carries them as their IEEE-754
bit patterns, which is what the file formats store.
