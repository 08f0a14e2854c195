# line_sweep

Computational geometry by line sweep: segment intersections, overlapping
axis-aligned rectangles, and the closest pair of points.

- `src/` is the verified library. Coordinates are floating-point numbers and
  never enter it; it is generic over the point type and holds the logic that
  does not depend on float arithmetic: the lexicographic order of points as
  decided from coordinate comparisons, segments and their event queue, the
  status structure of the sweep, and the state of the intersection and
  overlap sweeps. Each public function has a contract, and the laws of these
  structures (antisymmetry of the order, removal undoing insertion, insertion
  keeping the status sorted, reported pairs sorted and unique, ...) are proof
  functions.
- `app/` is the floating-point geometry around it: points, intersection
  tests, rectangles, the closest-pair search, and the drivers that feed float
  comparisons to the verified sweeps.
- `tests/` exercises the library on concrete values.
