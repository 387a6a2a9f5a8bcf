//! What the generators share: errors, built-in type names, naming schemes,
//! topics and the message collector.
pub mod builtins;
pub mod collect;
pub mod errors;
pub mod messages;
pub mod names;
pub mod topic;
