# i_triangle

Triangulation of integer polygons (contours, shapes with holes, lists of
shapes, optionally with lone interior points), verified with Verus.

- `src/` is the verified library. Ear clipping (`earcut`) handles contours
  of up to 64 points; larger ones go through a sweep line over the contour
  vertices (`vertex`, `segment`), either into a flat index buffer
  (`monotone`) or into a mesh of triangles linked to their neighbours
  (`net`, with `phantom` pairing the two sides of edges not yet closed).
  `solver` and `triangulator` are the entry points; input that may not be
  valid is first simplified with `i_overlay`. `uniform`, `split`,
  `locator` and `binder` place interior points, split long edges, locate
  points in triangles and assign points to the shapes that hold them.
- `tests/` exercises the library on concrete inputs.
- `app/` takes and gives the point and path types of `i_float` and
  `i_shape`, converting at the boundary.
