//! Verified core of the vault indexing and migration back end.
pub mod flat;
pub mod indexing;
pub mod migration;
pub mod path;
pub mod status;
pub mod tasks;
pub mod text;
