use vstd::prelude::*;

verus! {

/// Maximum transmission unit.
pub const MTU: usize = 1500;
/// Ethernet header length.
pub const ETH_HEADER_LEN: usize = 14;
/// ARP cache timeout, in seconds.
pub const ARP_CACHE_TIMEOUT: u32 = 600;
/// Minimum IPv4 header length.
pub const IP_MIN_HEADER_LEN: usize = 20;
/// UDP header length.
pub const UDP_HEADER_LEN: usize = 8;
/// Minimum TCP header length.
pub const TCP_MIN_HEADER_LEN: usize = 20;
/// TCP receive window, in bytes.
pub const TCP_RX_WINDOW_SIZE: u32 = 65535;
/// Largest listen backlog.
pub const SOCKET_BACKLOG_MAX: usize = 128;
/// Largest number of open sockets.
pub const SOCKET_TABLE_MAX: usize = 1024;
/// io_uring submission queue size.
pub const URING_SQ_SIZE: usize = 256;
/// io_uring completion queue size.
pub const URING_CQ_SIZE: usize = 512;

/// EtherType of IPv4.
pub const ETHERTYPE_IPV4: u16 = 0x0800;
/// EtherType of IPv6.
pub const ETHERTYPE_IPV6: u16 = 0x86DD;
/// EtherType of ARP.
pub const ETHERTYPE_ARP: u16 = 0x0806;

/// IP protocol number of ICMP.
pub const IP_PROTOCOL_ICMP: u8 = 1;
/// IP protocol number of TCP.
pub const IP_PROTOCOL_TCP: u8 = 6;
/// IP protocol number of UDP.
pub const IP_PROTOCOL_UDP: u8 = 17;
/// IP protocol number of ICMPv6.
pub const IP_PROTOCOL_ICMPV6: u8 = 58;

/// TCP FIN flag.
pub const TCP_FIN: u8 = 0x01;
/// TCP SYN flag.
pub const TCP_SYN: u8 = 0x02;
/// TCP RST flag.
pub const TCP_RST: u8 = 0x04;
/// TCP PSH flag.
pub const TCP_PSH: u8 = 0x08;
/// TCP ACK flag.
pub const TCP_ACK: u8 = 0x10;
/// TCP URG flag.
pub const TCP_URG: u8 = 0x20;

/// TCP connection state.
#[derive(Debug, Clone, Copy, PartialEq, Eq, Structural)]
pub enum TcpState {
    /// Listening.
    Listen,
    /// SYN sent.
    SynSent,
    /// SYN received.
    SynRecvd,
    /// Connection established.
    Established,
    /// FIN sent (active close).
    FinWait1,
    /// FIN acknowledged (active close).
    FinWait2,
    /// FIN received (passive close).
    CloseWait,
    /// FIN sent (passive close).
    LastAck,
    /// Waiting for the peer to close.
    TimeWait,
    /// Closed.
    Closed,
}

impl TcpState {
    /// The state's conventional name, as `netstat` prints it.
    pub fn name(self) -> (r: &'static str)
        ensures
            r@ == (match self {
                TcpState::Listen => "LISTEN"@,
                TcpState::SynSent => "SYN_SENT"@,
                TcpState::SynRecvd => "SYN_RCVD"@,
                TcpState::Established => "ESTABLISHED"@,
                TcpState::FinWait1 => "FIN_WAIT_1"@,
                TcpState::FinWait2 => "FIN_WAIT_2"@,
                TcpState::CloseWait => "CLOSE_WAIT"@,
                TcpState::LastAck => "LAST_ACK"@,
                TcpState::TimeWait => "TIME_WAIT"@,
                TcpState::Closed => "CLOSED"@,
            }),
    {
        match self {
            TcpState::Listen => "LISTEN",
            TcpState::SynSent => "SYN_SENT",
            TcpState::SynRecvd => "SYN_RCVD",
            TcpState::Established => "ESTABLISHED",
            TcpState::FinWait1 => "FIN_WAIT_1",
            TcpState::FinWait2 => "FIN_WAIT_2",
            TcpState::CloseWait => "CLOSE_WAIT",
            TcpState::LastAck => "LAST_ACK",
            TcpState::TimeWait => "TIME_WAIT",
            TcpState::Closed => "CLOSED",
        }
    }
}

} // verus!
