# galax

Integer core of a 2D gravitational N-body simulator based on the Fast
Multipole Method, written in Verus and proved against its contracts.

## Layout

- `src/` — the verified library:
  - `morton` — Morton (Z-order) keys of grid cells and their inverse;
  - `order` — stable sort of bodies by key, permutations, sorted tree build;
  - `tree` — bottom-up quadtree over Morton-sorted bodies, node levels, depth;
  - `balance` — leaf ranges with forced split points and the 2:1 refinement loop;
  - `lists` — far-field (M2L) and near-field (P2P) interaction lists;
  - `layout` — flat, index-based layouts of lists, leaves, children and levels;
  - `spatial` — map from (level, grid cell) to node and the eight-neighbour search;
  - `moments` — layout of expansion coefficients and kernel derivatives;
  - `snapshot` — the binary snapshot format, framed and read back bit for bit;
  - `sampling` — random samples of distinct body indices;
  - `control` — small scheduling decisions and the GPU error type.
- `tests/` — tests of the library on concrete values.
- `app/` — the command-line driver and the floating-point parts: node
  geometry, the FMM passes, initial conditions, time stepping and snapshot
  streams.

Geometric predicates on cells are floating-point computations; the library
takes them as closures (`touching`, the too-coarse flags) and states its
results in terms of their answers.
