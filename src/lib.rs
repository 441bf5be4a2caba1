//! Disk-usage tree: sizes a directory hierarchy and renders it as a sorted,
//! depth- and width-limited tree of text lines.
pub mod size_format;
pub mod text;
pub mod node;
pub mod listing;
pub mod render;
pub mod scan;
pub mod options;

