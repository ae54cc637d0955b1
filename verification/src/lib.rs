//! Calibration-value extraction over lines of text.
//!
//! Each input line yields a two-digit calibration value built from the first
//! and the last digit found in the line; lines with no digit contribute
//! nothing. A second pipeline first rewrites spelled-out number words
//! ("zero" through "nine") into digit characters, recognizing words that
//! overlap, and then applies the same extraction.

pub mod digits;
pub mod input;
pub mod numbers;
pub mod puzzle;
pub mod spelled;
pub mod text;
