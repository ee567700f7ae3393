//! Hierarchical colour summaries of square raster images: a complete quad
//! tree over every resolution level, and an adaptive region quad tree that
//! refines only where the colour error is too large.

pub mod image;
pub mod complete_quad_tree;
pub mod region_quad_tree;
