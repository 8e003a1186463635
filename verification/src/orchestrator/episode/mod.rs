//! Episodes of a session and their way into memory.

pub mod boundary;
pub mod flush;
pub mod sketches;
pub mod tracking;
pub mod types;
