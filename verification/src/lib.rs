//! Inlines the `$ref` indirections of a JSON document, such as a JSON
//! Schema, so that tools that cannot follow references can read it.
//!
//! A [`JsonRef`] resolves documents against the documents it holds and does
//! no input or output itself. Where a reference leads to a document that it
//! does not hold, it says which one is to be fetched; the caller fetches it,
//! hands it over and calls again.
pub mod document;
pub mod engine;
pub mod error;
pub mod laws;
pub mod pointer;
pub mod reference;
pub mod resolution;
pub mod store;
pub mod text;
pub mod uri;

pub use document::{Document, Number};
pub use engine::{Halt, JsonRef, Progress};
pub use error::Error;
pub use reference::{Fetch, Target};
pub use store::DocumentStore;
