//! The verified core of a PDF-to-Markdown converter with layout detection.
//!
//! - `detect`: from the detector's raw output to the detections kept
//!   (per-class non-maximum suppression, ordering by score).
//! - `layout`: the reading order of the detected regions of a page.
//! - `paragraph`: the text lines of a page gathered into those regions.
//! - `markdown`: how each region is written as Markdown, and asset names.
//! - `raster`: pixel access and outline drawing on packed RGB buffers.
//! - `sort`: the stable sort by integer keys that the others use.
//!
//! Geometry on the page is measured in floating point outside this crate;
//! it reaches the crate as integer keys that order values as the floats do,
//! and as the outcomes of the geometric tests.

pub mod detect;
pub mod layout;
pub mod markdown;
pub mod paragraph;
pub mod raster;
pub mod sort;
