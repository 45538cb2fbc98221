# breplot

STEP models to orthographic technical drawings for Typst: smooth shaded
surfaces as a PNG layer below native vector edges, plus a standalone NURBS
curve module.

## Layout

- `src/` is the verified library (Verus):
  - `text.rs`: character-level string operations with `str` semantics.
  - `step.rs`: filling the omitted `ref_direction` of `AXIS2_PLACEMENT_3D`
    entities in STEP text, with the laws that other lines are untouched,
    that the count is the number of omitted references, and that a second
    pass over the result fills nothing and returns it unchanged. The last
    law holds when the `,$);` of each placement to fill ends its line, the
    first `ENDSEC;` after the first `DATA;` begins a line, and no reference
    direction's coordinates hold a line break.
  - `nurbs.rs`: degree inference from knot and control point counts, the
    Rhino knot convention, style color and control point checks.
  - `construct.rs`: which input points the point-set constructors keep, the
    uniform knot vectors and the Greville parameters as exact fractions.
  - `grid.rs`: the cell grid that finds candidate occluders.
  - `mesh.rs`: mesh silhouette edges.
  - `raster.rs`: the surface raster width check, PNG and Base64 encoding of the surface layer and the binary
    envelope handed to Typst.
- `app/` is the program around it: STEP import and tessellation, projection,
  occlusion clipping, shading, rasterization, SVG output and the command line.
  That work is floating-point and stays outside the verified library.
- `tests/` exercises the library's public functions.
