//! The data path and view rules of a live time-series plotter.

pub mod buffer;
pub mod clock;
pub mod decimate;
pub mod extent;
pub mod feed;
pub mod labels;
pub mod legend;
pub mod number;
pub mod palette;
pub mod plot;
pub mod smoothing;
pub mod text;

