//! The C emitter.
pub mod banners;
pub mod builder;
pub mod context;
pub mod docs;
pub mod functions;
pub mod generate;
pub mod layout;
pub mod lines;
pub mod macros;
pub mod model;
pub mod names;
pub mod places;
pub mod prototypes;
pub mod render;
pub mod source;
pub mod tables;
pub mod topic;
pub mod types;
pub mod used;
pub mod whole;
