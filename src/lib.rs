//! A type-length-value extension region appended after a fixed-size base
//! record inside a growable byte buffer.
pub mod error;
pub mod extension;
pub mod state;
pub mod locator;
pub mod region;
pub mod state_extension;
pub mod laws;
