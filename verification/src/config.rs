//! The one setting of the relay: the address on which it listens.

use vstd::prelude::*;

verus! {

/// The name of the environment variable that holds the address to listen on.
pub const ADDRESS_VARIABLE: &'static str = "GOSPLAN_URL";

/// The address to listen on where none is configured.
pub const DEFAULT_ADDRESS: &'static str = "127.0.0.1:5000";

/// The address to listen on: the configured one where there is one, whatever it
/// holds, and [`DEFAULT_ADDRESS`] otherwise. Whether the address can be bound is for
/// the caller to find out; a relay that cannot bind it does not start.
pub fn listen_address(configured: Option<String>) -> (address: String)
    ensures
        address@ == match configured {
            Some(value) => value@,
            None => DEFAULT_ADDRESS@,
        },
{
    match configured {
        Some(value) => value,
        None => DEFAULT_ADDRESS.to_owned(),
    }
}

} // verus!
