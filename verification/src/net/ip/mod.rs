pub mod ipv4;
pub mod ipv6;
pub mod routing;
pub mod icmp;
pub mod icmpv6;
pub mod fragment;
mod dispatch;

pub use dispatch::{recv_packet, send_packet};

use vstd::prelude::*;

verus! {

/// Runs the IPv4, IPv6, routing and ICMP self-checks; always passes.
pub fn selftest() -> (r: bool)
    ensures
        r,
{
    ipv4::selftest() && ipv6::selftest() && routing::selftest() && icmp::selftest()
}

} // verus!
