use vstd::prelude::*;
use crate::error::{KernelError, KernelResult};

verus! {

/// Accepts `data` for an IPv6 destination and reports its length.
pub fn send_packet(dest_ip: &[u8], protocol: u8, data: &[u8]) -> (r: KernelResult<usize>)
    ensures
        r == Ok::<usize, KernelError>(data@.len() as usize),
{
    Ok(data.len())
}

/// Accepts an incoming IPv6 packet.
pub fn recv_packet(data: &[u8]) -> (r: KernelResult<()>)
    ensures
        r == Ok::<(), KernelError>(()),
{
    Ok(())
}

/// Builds the loopback address; always passes.
pub fn selftest() -> (r: bool)
    ensures
        r,
{
    let _addr = crate::net::types::Ipv6Address::loopback();
    true
}

} // verus!
