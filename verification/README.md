# deskthing

A desktop toy of small simulations (Conway-style automata, boids, particle
life, a position-based fluid pushed around by a video's silhouette), drawn with
macroquad.

The crate is split in two:

- `src/` is the library, verified with Verus: the two-state generation
  buffer, the row-major grid and its neighbourhoods, the chunk index used for
  neighbour search, life-like automata with their rule parser and time
  stepping, RGBA image buffers, one-bit bitmaps (thresholding, rasterising,
  their byte format), exact squared Euclidean distance transforms, input
  snapshots, and the thin wrappers over `rand` and `glam` that these use.
- `app/` is the program around it: the macroquad window and render backend,
  file loading, the floating-point simulations (boids, particle life, fluid,
  signed distance fields) and screen-space layout.

`tests/` exercises the library from outside, with the outside crates linked.
