//! Vehicle tracking core: box geometry, RGB frame drawing, letterbox packing
//! of detector input, detector-output layout checks and a SORT-style tracker.
pub mod geometry;
pub mod assignment;
pub mod tracker;
pub mod frame;
pub mod letterbox;
pub mod resize;
pub mod cli;
pub mod detector_output;
