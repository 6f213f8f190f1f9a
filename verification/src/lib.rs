//! Release and package policy for a fleet of mirrored action repositories.

pub mod agreement;
pub mod calver;
pub mod failure;
pub mod laws;
pub mod mirror;
pub mod model;
pub mod package;
pub mod release;
pub mod text;
pub mod time;
pub mod tree;
