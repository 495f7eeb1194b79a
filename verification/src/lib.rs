//! A structural query engine over JSON-like documents.
//!
//! Given a document and an ordered list of field names, [`resolve`] finds
//! every value reachable under that path, each name sought at any depth
//! beneath the one before it. [`collect_tagged`] gathers the values of one
//! distinguished field over a whole document.

pub mod collector;
pub mod laws;
pub mod resolver;
pub mod value;

pub use collector::collect_tagged;
pub use resolver::resolve;
pub use value::{Object, Value};
