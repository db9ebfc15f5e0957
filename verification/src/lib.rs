//! A MIB engine: monitoring values laid out in an ordered tree of numeric
//! paths, answered by exact lookup and by ordered-successor lookup.

pub mod config;
pub mod convert;
pub mod entry;
pub mod ident;
pub mod json;
pub mod metrics;
pub mod oid;
pub mod text;
pub mod tree;
pub mod value;
