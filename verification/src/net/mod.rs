//! Sockets, and what the network stack is asked to do.

pub mod laws;
pub mod socket;
pub mod udp;
pub mod unix;

use vstd::prelude::*;

verus! {

/// When the network stack wants to run again, in nanoseconds from now, if it is there and
/// has something to do: from the delay that it named, in microseconds.
pub fn pump_network(stack: Option<Option<u64>>) -> (r: Option<u64>)
    ensures
        r == match stack {
            Some(Some(micros)) => Some(
                if micros * 1000 > u64::MAX {
                    u64::MAX
                } else {
                    (micros * 1000) as u64
                },
            ),
            _ => None,
        },
{
    match stack {
        Some(delay) => match delay {
            Some(micros) => match micros.checked_mul(1000) {
                Some(ns) => Some(ns),
                None => Some(u64::MAX),
            },
            None => None,
        },
        None => None,
    }
}

/// A port for a socket that was not given one.
pub fn random_port(chance: u16) -> (r: u16)
    ensures
        r == 49152 + chance % 16384,
{
    49152 + chance % 16384
}

} // verus!
