//! Line layout for text: a string is cut into measured segments (`prepare`),
//! then broken greedily into lines of a given width (`layout_with_lines`).
//!
//! Widths are integers in hundredths of a pixel: `SimpleMeasurer` with a
//! 16px font measures a space as 528 and a Latin letter as 960, and a line
//! 200px wide is `layout(&prepared, 20_000, line_height)`.
pub mod text;
pub mod measure;
pub mod prepare;
pub mod overlong;
pub mod layout;
pub mod patches;
pub mod json;
pub mod laws;
pub mod segment_laws;
pub mod text_laws;
pub mod monotone_laws;
pub mod order_laws;
pub mod prewrap_laws;

pub use text::{
    is_arabic_base, is_arabic_combining_mark, is_combining_mark, is_wide,
    starts_with_forbidden_line_start,
};
pub use measure::{Measurer, SimpleMeasurer};
pub use prepare::{prepare, space_before_arabic_mark_cluster, Prepared, Segment, SegmentKind, WhiteSpaceMode};
pub use layout::{
    layout, layout_next_line, layout_with_lines, walk_line_ranges, LayoutLines, LayoutResult,
    Line, LineCursor,
};
pub use json::escape_json;
