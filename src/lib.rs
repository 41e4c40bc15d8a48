//! Post-processing helpers for document layout pipelines: deduplication of
//! labelled bounding boxes, and a few text scans over LaTeX and chunked text.

pub mod geometry;
pub mod dedup;
pub mod laws;
pub mod text;
pub mod chunk;
