# starglyph

Verified core of the Starglyph star-field toolkit, written in Verus.

`src/` is the library. Its functions are verified against their contracts, except
a few small trusted wrappers around `std`, `chrono` and `rand_chacha` calls (marked
`#[verifier::external_body]`), whose contracts state what those calls do:

- `text`: character-level parsing and formatting (trimming, case folding, splitting,
  decimal parsing and zero-padded printing).
- `calendar`, `telemetry`: civil dates, timestamps encoded in frame names, the
  day-count to date conversion and RFC 3339 rendering, with their laws (next/previous
  day inverse, day counts one-to-one).
- `seeds`, `dataset`, `data_paths`: seed derivation, dataset plans, frame identifiers
  and file layout, data-directory search.
- `detect`, `peaks`, `raster`, `solver`: connected components of detection masks,
  ranked peak detection with non-maximum suppression, raster drawing (discs and
  Bresenham lines) and the detection debug layer.
- `catalog`, `star_catalog`: CSV header and field handling of HYG star catalogs.
- `eval`, `files`, `solve`, `desktop`, `serve`, `contracts`, `ephem`, `pool`:
  evaluation bookkeeping, file-name rules, solve control data, viewer helpers,
  request parsing and error envelopes, shared records, planet names and the
  engine-pool ledger.

`app/` is the command-line front end: image and file access, JSON output, and the
floating-point models that stay outside the verified library (the dataset simulator's
camera, projection, rendering and degradations; the benchmark recognizer's matching,
pose estimation and metrics), driven by the library's verified plans, seeds, detector,
raster drawing and bookkeeping. `tests/` exercises the library on concrete values.
