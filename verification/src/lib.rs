//! Driver core for the BM Lite fingerprint sensor: frames, arguments and the
//! exchange that carries one command to the sensor and its answer back.

pub mod codec;
pub mod commands;
pub mod driver;
pub mod error;
pub mod exchange;
pub mod laws;
pub mod payload;
pub mod script;
pub mod settled;
pub mod transport;

pub use crate::driver::{BmLite, ByteExchange, DigitalIn, DigitalOut};
pub use crate::error::Error;
