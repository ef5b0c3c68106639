//! An in-memory key-value store driven by a binary wire protocol.
//!
//! The crate covers the protocol codec (tagged values, commands and
//! responses), the framing engine that carves complete frames out of an
//! incoming byte stream, and the key-to-value table the frames drive.
//! Transport setup, the accept loop and process configuration live with the
//! callers; everything here works on plain bytes and values.

pub mod bytes;
pub mod client;
pub mod command;
pub mod config;
pub mod error;
pub mod frame;
pub mod protocol;
pub mod storage;
pub mod tcp;
pub mod value;

pub use error::Error;
