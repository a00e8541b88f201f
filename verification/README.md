# Midpoint Foundry

Raster algorithms for circles, ellipses and lines on an integer grid, with a
viewer that draws their pixels cell by cell.

- `src/` is the library, verified with Verus. Every rasteriser states, in its
  contract, the exact sequence of cells it plots: the midpoint circle and
  ellipse walks, the baseline (implicit-equation) disc, the scanline fill, the
  ring fills that stack shrinking outlines, the bridged ellipse walks and the
  midpoint line. Decision values that are quarter-valued in the textbook
  formulation are kept multiplied by four, so that every one is an exact
  integer. Proof functions whose names start with `lemma_` and whose doc
  comments start with "Law" state the properties that hold across inputs:
  the circle's pixels lie in the midpoint band, the outlines are symmetric
  and the ellipse stays within its bounding box, one result covers another
  (fills cover outlines, bridged walks cover plain ones), fill rows have no
  holes, and every ring occupies its place and carries its label.
- `ranges` tests at run time the ranges that the rasterisers' contracts ask
  for, so a caller that does not know its inputs in advance can check them.
- `tests/` runs the library on concrete inputs.
- `app/` is the viewer: window, GPU rendering, user interface and benchmark,
  together with the two rasterisers whose decisions run on floating point.
