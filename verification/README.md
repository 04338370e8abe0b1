# ireland_dino_finder

A 2D acoustic wave sandbox for heterogeneous, lossy materials. The library in
`src/` is verified with Verus; the program in `app/` runs the simulations.

- `src/grid.rs`: row-major cell indexing, source and probe placement checks,
  the distance to the grid edge that shapes the absorbing sponge.
- `src/text.rs`, `src/csv.rs`: lines, Unicode trimming and CSV records with
  quoted fields.
- `src/materials.rs`: material-property tables and CSV material-id maps.
- `src/ppm.rs`: plain (P3) PPM masks whose colours name materials.
- `src/metadata.rs`: the material-id index and name table stored beside the
  wavefield.
- `src/scenarios.rs`: the named visual scenarios and their material layouts.
- `src/solver.rs`: output configuration and when frames are written.

`app/` holds what works on floating-point values (the wave models, sources,
the time-stepping loop, output of pressure fields) and file I/O, including
the HDF5 writer.
