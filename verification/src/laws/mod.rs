//! What holds of the library as a whole, proved from what its functions state.

pub mod identity;
pub mod mirror;
pub mod package;
pub mod release;
pub mod text;
pub mod time;
pub mod tree;
