//! What the command line tool checks and changes before it generates.
pub mod assign;
pub mod bytes;
pub mod diagnostics;
pub mod imports;
pub mod keys;
pub mod modules;
pub mod options;
pub mod prepare;
