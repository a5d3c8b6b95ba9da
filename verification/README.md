# rasterizer

A small software rasterizer whose integer core is verified with Verus.

- `src/math.rs`: two-, three- and four-component vectors with component-wise
  operators, and integer clamping.
- `src/rasterize.rs`: the edge function and the fixed-point (28.4) triangle
  coverage: which pixels a triangle covers, with the sub-triangle areas used as
  barycentric weights, and the top-left rule (its bias is added once per pixel,
  not carried along a row), with a proof that two triangles sharing an edge
  never both draw a pixel.
- `src/line.rs`: clipped Bresenham lines on 64-bit and on 32-bit integers, on
  canvases with even sides; row and column 0 belong to the canvas. It comes with
  proofs that every drawn pixel lies on the canvas, that a line does not depend on
  the order of its end points, that consecutive pixels are neighbours, and that
  the two drawers agree on small coordinates.
- `src/assembly.rs`: splitting vertex and index lists into triangles, and the
  sides of a triangle outline.
- `src/pixel.rs`: canvas pixels from bytes.
- `src/input.rs`: key bindings of the interactive viewer.

`app/` holds the floating-point side: matrices, projection, perspective-correct
shading, the `rasterize` and `draw_lines` entry points and the viewer's camera.
