//! A text chart drawn with braille dots: the integer drawing logic of a
//! terminal plotter (axes, borders, shapes and axis labels) over a
//! `drawille` canvas.
pub mod canvas;
pub mod chart;
pub mod dots;
pub mod labels;
pub mod laws;
pub mod shapes;

pub use canvas::Rgb;
pub use chart::{Chart, LineStyle};
pub use labels::{annotate_frame, AxisLabels};
pub use shapes::{PlottedShape, ShapeKind};
