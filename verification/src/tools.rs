//! What the built-in tools share.
pub mod sandbox;
pub mod sandbox_laws;
