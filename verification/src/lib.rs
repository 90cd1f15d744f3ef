//! Operational transformation on JSON documents: routing paths through a
//! document, applying operation components to it, and composing,
//! inverting and transforming operations.

pub mod error;
pub mod value;
pub mod path;
pub mod operation;
pub mod apply;
pub mod json;
pub mod laws;

