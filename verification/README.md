# iconforge

Finds the icons on a sheet, groups their pieces, prepares them for tracing,
writes and scores the resulting documents, and reviews a whole sheet for
duplicates, outliers and defects. The library is written in Verus: every
function under `src/` states what it returns, and Verus proves it.

## Layout

Sheets and masks
: `raster`, `normalize`, `background`, `mask`, `segment`, `clean`, `maskcache`

Groups
: `group` (two connected-component groupers that agree), `merge`, `fuse`,
  `refine`, `split` with `chamfer`, `watershed` and `regions`, `grid`,
  `lattice`, `containment`, `confidence`, `likeness`, `grouping`,
  `sensitivity`

Tracing
: `profiles`, `quantize`, `trace`, `simplify`, `emit`, `score`, `vectorize`,
  `batch`

Review
: `hashes`, `dupes`, `cluster`, `cascade`, `outliers`, `quality`, `triage`,
  `review`, `host`

Shared
: `geometry`, `ratio`, `wide`, `sorting`, `counting`, `median`, `connect`,
  `union_find`, `flood`, `nearby`, `text`, `csv`, `digest`, `error`,
  `project`, `rss`

`app/` holds what needs floating point, files, threads, the database or
serialisation. `tests/` runs the library together with the real crates.

## Conventions

- Fractions are integers: tunables in thousandths (`Milli`), scores in
  billionths, medians doubled, shares as exact ratios, outline coordinates in
  hundredths of a pixel.
- Contracts speak of spec functions beside the code. Public proof functions
  state what holds across functions: that equal inputs give equal results,
  that the order of the input does not matter, that a split conserves ink, that
  an undo reverts a decision, that an exported log reads back.
- The digest, PNG, image decoding and resampling, the SVG parser and renderer
  and the tracer are called through small functions whose contracts Verus takes
  on trust. Each says above it what it claims of the crate that it calls.
