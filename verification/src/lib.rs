//! Code generation for Blueberry interface definitions: name mangling, wire
//! layout, key management, diagnostics and the C emitter.
pub mod analysis;
pub mod annotations;
pub mod ast;
pub mod bags;
pub mod c;
pub mod chains;
pub mod cli;
pub mod common;
pub mod concat;
pub mod numerals;
pub mod order;
pub mod text;
pub mod tree;
pub mod typescript;
pub mod unicode;
pub mod whitespace;
