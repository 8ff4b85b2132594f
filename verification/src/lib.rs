//! Rendering of code frames: a window of source lines around an error
//! location, with a gutter of line numbers and a row of carets under the
//! marked columns.
pub mod bytes;
pub mod frame;
pub mod frame_laws;
pub mod laws;
pub mod line_endings;
pub mod lines;
pub mod marker;
pub mod num;
pub mod position;
pub mod shown_width;
pub mod truncate;

pub use frame::{render_code_frame, CodeFrameLocation, CodeFrameOptions, Location, RenderError};
pub use position::parse_position;
