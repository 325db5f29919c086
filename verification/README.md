# pdf2md

A PDF-to-Markdown converter with layout detection, whose decision logic is
verified with Verus.

- `src/` is the verified library: choosing detections (per-class
  non-maximum suppression), the reading order of a page's regions,
  gathering text lines into regions, rendering regions as Markdown, and
  drawing outlines on RGB buffers. Each public function states its result
  exactly, and the library's promises (every region read exactly once,
  headers first and footers last, suppression never keeps two overlapping
  detections of a class, and so on) are proof functions named `lemma_*_laws`.
- `app/` is the program around it: command line, PDF rendering and text
  extraction, the neural-network detector, PNG output, and the
  floating-point geometry. The geometry reaches the library as integer keys
  that order values as the floats do and as the outcomes of the geometric
  tests.
- `tests/` runs the library on concrete pages and buffers.
