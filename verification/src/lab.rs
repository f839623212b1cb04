//! Experimental stages, kept beside the format for measurement. Nothing here is part of a `.brp`
//! file.

pub mod context;
pub mod deflate;
pub mod filters;
pub mod grid;
pub mod predictors;
pub mod remap;
pub mod stats;
