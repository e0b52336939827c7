//! Tools for province map datasets: a definition-record model with textual
//! parsing and serialization, a duplicate validator, and a merge engine that
//! reconciles two maps' color spaces into one.

pub mod color;
pub mod numtext;
pub mod text;
pub mod definition;
pub mod validate;
pub mod reindex;
pub mod raster;
pub mod merge;
pub mod filter;
pub mod paths;
