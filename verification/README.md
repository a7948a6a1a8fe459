# textchart

Braille charts for the terminal, drawn on a `drawille` canvas.

- `src/` is the verified library: the canvas as the chart sees it
  (`canvas.rs`, with the trusted wrappers of `drawille`), the chart with its
  lines, borders and axes (`chart.rs`), drawing as a sequence of coloured
  pixels and what it leaves in each cell (`dots.rs`), plotted shapes and the placing of
  data points on the pixel grid (`shapes.rs`), the axis labels around the
  frame (`labels.rs`), and the laws that every drawing obeys (`laws.rs`).
- `app/` is the float-valued chart API (scales, automatic y range, label
  formatting, `Display`), which hands integer pixels and label texts to the
  library.
- `tests/` runs the library on concrete charts.
