# binpack

Two-dimensional bin packing with conflicts, verified with Verus.

Items are placed into `width` by `height` bins by bottom-left placement over
empty maximal spaces; items joined by an edge of the conflict graph never share
a bin.

- `src/` is the verified library: rectangles (`ems`), items, conflict graphs and
  their greedy coloring, the bin (`container`), instances, the first-fit
  packing of an insertion order (`decoder`), the first-fit-decreasing
  baseline (`greedy`) and the per-bin content of solution documents
  (`serializer`).
- `app/` is the command-line program: it reads instance files, runs the
  baseline and a biased random-key genetic algorithm (whose random keys are
  floating-point numbers), and writes solution documents.
- `tests/` exercises the library on concrete instances.
