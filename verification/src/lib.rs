//! Self-delimiting length-prefixed byte frames.

pub mod codec;
pub mod error;
pub mod frame;
pub mod laws;
pub mod lemmas;
pub mod wire;
