//! Random records from flat-file corpora that carry a binary offset index.
//!
//! The library holds the index codec, the delimiter-line segmentation shared by the index
//! builder and the record reader, the number source, and the weighted selection engine.
pub mod datfile;
pub mod discovery;
pub mod fortune_engine;
pub mod lines;
pub mod rng;
pub mod strfile_builder;
