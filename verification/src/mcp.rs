//! The client side of the Model Context Protocol.
pub mod body;
pub mod frames;
pub mod laws;
pub mod plain;
pub mod scan;
pub mod skipped;
pub mod transport;
pub mod types;
