//! Slicing of terminal text by display column, aware of wide characters and of
//! ANSI escape sequences.
//!
//! `width` measures a text in terminal columns (escape sequences take none, wide
//! chars two); `slice` extracts the columns `[start, end)` and carries the styling
//! and hyperlink that are open at the cut; `slice_from` slices to the end.

pub mod scan;
pub mod text;
pub mod unicode;
pub mod token;
pub mod sgr;
pub mod slice;
pub mod rescan;
pub mod pieces;
pub mod readback;
pub mod balance;
pub mod plain;
pub mod laws;

pub use crate::slice::{
    checked_slice, checked_slice_from, checked_width, slice, slice_from, slice_with, width, width_with,
};
