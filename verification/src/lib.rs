//! Measures how many bytes a corpus of WebAssembly binaries could save by
//! deduplicating repeated substructures: data segments, element segments,
//! function-code bodies and custom sections.
//!
//! Equality of byte ranges is decided through a wide content digest rather
//! than byte-for-byte comparison; two ranges are grouped together exactly
//! when their digests agree. The walker decodes arbitrarily nested modules
//! with an explicit stack of decoder states and folds every tracked range
//! into one shared aggregate.

pub mod counts;
pub mod digest;
pub mod groups;
pub mod walker;
