//! Verified core of a course-exercise ingestion pipeline.
//!
//! Scanned document pages are rasterized to images, classified into
//! structured exercise records, and persisted into a course -> week ->
//! exercise hierarchy with binary image assets on the side.  This crate
//! holds the logic of that pipeline: tag normalization, the hierarchy
//! store with its replace / cascade / rename semantics, search and tag
//! filtering, rasterizer page assembly, and the text codecs used for
//! stored columns.  Process invocation, networking and the on-disk
//! database live outside, in thin callers of this library.

pub mod assets;
pub mod codec;
pub mod extract;
pub mod foreign;
pub mod numfmt;
pub mod raster;
pub mod store;
pub mod tags;
pub mod text;
