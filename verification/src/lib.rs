//! A YAML toolkit whose answers are proved.
//!
//! Four layers, each resting on the one before it:
//!
//! - [`schema`] answers "what type is this plain scalar?" for a piece of text.
//! - [`node`] is the representation tree, with typed accessors and the dotted
//!   paths of [`path`]; [`borrowed`] wraps a tree that borrows from its source.
//! - [`event`] describes what a parser emits.
//! - [`stream`] reads values straight out of an event stream, expanding aliases
//!   and merge keys on the way, without building a tree.
pub mod borrowed;
pub mod error;
pub mod event;
pub mod limits;
pub mod node;
pub mod path;
pub mod schema;
pub mod stream;
pub mod text;
pub mod types;
