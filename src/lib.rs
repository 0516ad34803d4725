//! Finds where two equally sized RGBA rasters differ and outlines those places.
//!
//! Differing pixels form a mask ([`diff_matrix`]); unassigned differing cells are
//! grouped into regions by a flood fill that bridges small gaps ([`labeling`]);
//! each region gives a bounding rectangle ([`rectangles`]); overlapping rectangles
//! are merged ([`merging`]); and the rectangles are outlined on a copy of the actual
//! image ([`render`]). [`compare`] ties these steps together.

pub mod compare;
pub mod diff_matrix;
pub mod geometry;
pub mod grid;
pub mod labeling;
pub mod merging;
pub mod rectangles;
pub mod render;
