//! Verified core of a TypeScript type checker: interned types, assignability,
//! diagnostics and the text positions they are reported at.

pub mod text;
pub mod types;
pub mod relations;
pub mod signatures;
pub mod syntax;
pub mod checker;
pub mod diagnostic;
pub mod tsgo;
pub mod editor;
pub mod playground;
pub mod source;
