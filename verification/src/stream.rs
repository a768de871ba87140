//! Reading values straight from the parser event stream, without a node tree.

pub mod base64;
pub mod mapping;
pub mod merge;
pub mod scalar;
pub mod source;
pub mod tape;
pub mod value;
