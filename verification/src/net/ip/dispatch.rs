use vstd::prelude::*;
use crate::error::{KernelError, KernelResult};
use crate::net::ip::{ipv4, ipv6};
use crate::net::ip::ipv4::{wire_checksum_ok, is_ttl_expired};

verus! {

/// Sends `data` by the IP version that the address length gives: 4 bytes
/// for IPv4, 16 for IPv6; `InvalidArgument` for any other length.
pub fn send_packet(dest_ip: &[u8], protocol: u8, data: &[u8]) -> (r: KernelResult<usize>)
    ensures
        (dest_ip@.len() == 4 || dest_ip@.len() == 16) ==> r == Ok::<usize, KernelError>(data@.len() as usize),
        !(dest_ip@.len() == 4 || dest_ip@.len() == 16) ==> r == Err::<usize, KernelError>(KernelError::InvalidArgument),
{
    if dest_ip.len() == 4 {
        ipv4::send_packet(dest_ip, protocol, data)
    } else if dest_ip.len() == 16 {
        ipv6::send_packet(dest_ip, protocol, data)
    } else {
        Err(KernelError::InvalidArgument)
    }
}

/// Hands an incoming packet to IPv4 or IPv6 by its version nibble:
/// `InvalidArgument` for an empty packet, `Unsupported` for another version.
pub fn recv_packet(data: &[u8]) -> (r: KernelResult<()>)
    ensures
        data@.len() == 0 ==> r == Err::<(), KernelError>(KernelError::InvalidArgument),
        data@.len() > 0 && data@[0] / 16 == 6 ==> r == Ok::<(), KernelError>(()),
        data@.len() > 0 && data@[0] / 16 != 4 && data@[0] / 16 != 6
            ==> r == Err::<(), KernelError>(KernelError::Unsupported),
        data@.len() > 0 && data@[0] / 16 == 4 ==> ({
            let h = data@.subrange(0, 20);
            &&& data@.len() < 20 ==> r == Err::<(), KernelError>(KernelError::InvalidArgument)
            &&& data@.len() >= 20 && !wire_checksum_ok(h) ==> r == Err::<(), KernelError>(KernelError::InvalidArgument)
            &&& data@.len() >= 20 && wire_checksum_ok(h) && h[8] == 0 ==> r is Err && is_ttl_expired(r->Err_0)
            &&& data@.len() >= 20 && wire_checksum_ok(h) && h[8] != 0 ==> r == Ok::<(), KernelError>(())
        }),
{
    if data.len() == 0 {
        return Err(KernelError::InvalidArgument);
    }
    let b = data[0];
    assert((b >> 4) & 0x0F == b / 16) by (bit_vector);
    let version = (b >> 4) & 0x0F;
    if version == 4 {
        ipv4::recv_packet(data)
    } else if version == 6 {
        ipv6::recv_packet(data)
    } else {
        Err(KernelError::Unsupported)
    }
}

} // verus!
