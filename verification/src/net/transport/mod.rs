pub mod udp;
pub mod tcp;
pub mod socket;
mod dispatch;

pub use dispatch::{recv_data, send_data};

use vstd::prelude::*;

verus! {

/// Runs the socket, UDP and TCP self-checks; always passes.
pub fn selftest() -> (r: bool)
    ensures
        r,
{
    socket::selftest() && udp::selftest() && tcp::selftest()
}

} // verus!
