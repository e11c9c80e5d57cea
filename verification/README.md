# fractal_flame

The bookkeeping core of a fractal-flame renderer, verified with Verus.

- `src/histogram.rs` — the hit-count histogram, held in an `ndarray` grid;
  reading, writing, clearing, and merging the histograms of several workers.
- `src/compute_state.rs` — how an iteration budget is shared among sequences,
  the compute/merge state machine that holds the main histogram, what one
  iteration does with its point and how it is counted, and
  how cell indices are clamped into the histogram.
- `src/visualization.rs` — the parameters of the displayed image.
- `app/` — the viewer program: window, thread pool, channels, and the
  floating-point geometry (affine maps, variations, colors).
- `tests/` — tests of the library on concrete values.
