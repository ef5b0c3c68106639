//! Process configuration: a host address and a listening port.
//!
//! The port must lie in the registered-port range 1024 to 49151; a value
//! outside it is rejected before any listener starts. Reading the values
//! from the environment is the caller's business; validation is here.

use vstd::prelude::*;
use crate::error::{DatabaseError, DatabaseResult};

verus! {

/// A validated host and port pair.
#[allow(non_snake_case)]
#[derive(Debug)]
pub struct Config {
    pub HOST: String,
    pub PORT: u16,
}

/// The lowest acceptable port.
pub const PORT_MIN: u16 = 1024;

/// The highest acceptable port.
pub const PORT_MAX: u16 = 49151;

impl Config {
    /// Accepts the pair exactly when the port lies in the registered
    /// range.
    pub fn new(host: String, port: u16) -> (r: DatabaseResult<Config>)
        ensures
            (PORT_MIN <= port <= PORT_MAX) <==> r is Ok,
            r matches Ok(c) ==> c.HOST == host && c.PORT == port,
            !(PORT_MIN <= port <= PORT_MAX) ==> r == Err::<Config, DatabaseError>(
                DatabaseError::InvalidPortValue(port),
            ),
    {
        if port < PORT_MIN || port > PORT_MAX {
            Err(DatabaseError::InvalidPortValue(port))
        } else {
            Ok(Config { HOST: host, PORT: port })
        }
    }
}

} // verus!
