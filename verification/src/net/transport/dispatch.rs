use vstd::prelude::*;
use crate::error::{KernelError, KernelResult};
use crate::net::config::{IP_PROTOCOL_TCP, IP_PROTOCOL_UDP};
use crate::net::transport::{tcp, udp};
use crate::net::types::be16;

verus! {

/// Sends `data` with the transport protocol `protocol` (UDP or TCP);
/// `Unsupported` for another protocol.
pub fn send_data(
    protocol: u8,
    src_ip: [u8; 4],
    src_port: u16,
    dst_ip: [u8; 4],
    dst_port: u16,
    data: &[u8],
) -> (r: KernelResult<usize>)
    requires
        protocol == 17 ==> data@.len() % 65536 <= 65527,
    ensures
        (protocol == 17 || protocol == 6) ==> r == Ok::<usize, KernelError>(data@.len() as usize),
        !(protocol == 17 || protocol == 6) ==> r == Err::<usize, KernelError>(KernelError::Unsupported),
{
    if protocol == IP_PROTOCOL_UDP {
        udp::send_packet(src_port, dst_port, data)
    } else if protocol == IP_PROTOCOL_TCP {
        tcp::send_packet(src_port, dst_port, data)
    } else {
        Err(KernelError::Unsupported)
    }
}

/// Hands incoming `data` to UDP or TCP by `protocol`; `Unsupported` for
/// another protocol.
pub fn recv_data(
    protocol: u8,
    src_ip: [u8; 4],
    src_port: u16,
    dst_port: u16,
    data: &[u8],
) -> (r: KernelResult<()>)
    ensures
        protocol == 17 ==> (r is Ok <==> (data@.len() >= 8 && data@.len() >= be16(data@[4], data@[5]))),
        protocol == 6 ==> (r is Ok <==> data@.len() >= 20),
        (protocol == 17 || protocol == 6) && r is Err ==> r == Err::<(), KernelError>(KernelError::InvalidArgument),
        !(protocol == 17 || protocol == 6) ==> r == Err::<(), KernelError>(KernelError::Unsupported),
{
    if protocol == IP_PROTOCOL_UDP {
        udp::recv_packet(data)
    } else if protocol == IP_PROTOCOL_TCP {
        tcp::recv_packet(data)
    } else {
        Err(KernelError::Unsupported)
    }
}

} // verus!
