# rigid_sim

A small position-based rigid-body simulator (spheres and cubes falling on a ground
plane, distance constraints, mouse dragging) drawn by a software rasteriser in an
SDL2 window.

- `src/` is the library, verified with Verus:
  - `collider`: the bounding-volume tree over body ids; its build alternates with the
    caller's geometric work (`start_build`, `next_node`, `build`), and `collide` walks
    it with the caller's box and body tests.
  - `walk`: the same tree walked one probe at a time, for the picking ray.
  - `cube`: cube corners and the corner pairs tested for cube contacts.
  - `shape`: body shapes, the contact test for a pair, constraint kinds.
  - `raster`: frame size, pixel slots, image clearing and colour writes.
  - `mouse`: the pointer state kept from mouse events.
- `app/` is the program: floating-point geometry (`point`), the solvers and scene
  generators (`main`, `bodies`), and the SDL2 window and rasteriser (`renderer`).
- `tests/` runs the library on concrete values.
