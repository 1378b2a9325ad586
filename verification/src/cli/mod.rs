//! What the command line decides, apart from reading, timing and printing.

pub mod bench;
pub mod datasets;
pub mod durable;
pub mod snapshot;
pub mod verify;
