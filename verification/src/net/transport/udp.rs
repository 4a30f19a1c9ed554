use vstd::prelude::*;
use crate::error::{KernelError, KernelResult};
use crate::net::types::{be16, u16_to_be, u16_from_be};

verus! {

/// UDP header (8 bytes).
#[derive(Debug, Clone, Copy)]
pub struct UdpHeader {
    /// Source port, big-endian.
    pub src_port: [u8; 2],
    /// Destination port, big-endian.
    pub dst_port: [u8; 2],
    /// Length of header and payload, big-endian.
    pub length: [u8; 2],
    /// Checksum (0 = not used), big-endian.
    pub checksum: [u8; 2],
}

impl UdpHeader {
    /// The 8 bytes of the header as they stand on the wire.
    pub open spec fn wire(&self) -> Seq<u8> {
        self.src_port@ + self.dst_port@ + self.length@ + self.checksum@
    }

    /// Header for `payload_len` bytes from `src_port` to `dst_port`, no
    /// checksum.
    pub fn new(src_port: u16, dst_port: u16, payload_len: u16) -> (r: Self)
        requires
            payload_len <= 65527,
        ensures
            be16(r.src_port[0], r.src_port[1]) == src_port,
            be16(r.dst_port[0], r.dst_port[1]) == dst_port,
            be16(r.length[0], r.length[1]) == 8 + payload_len,
            r.checksum@ == seq![0u8, 0],
    {
        let r = UdpHeader {
            src_port: u16_to_be(src_port),
            dst_port: u16_to_be(dst_port),
            length: u16_to_be(8u16 + payload_len),
            checksum: [0, 0],
        };
        assert(r.checksum@ =~= seq![0u8, 0]);
        r
    }

    /// Source port.
    pub fn src_port(&self) -> (r: u16)
        ensures
            r == be16(self.src_port[0], self.src_port[1]),
    {
        u16_from_be(self.src_port)
    }

    /// Destination port.
    pub fn dst_port(&self) -> (r: u16)
        ensures
            r == be16(self.dst_port[0], self.dst_port[1]),
    {
        u16_from_be(self.dst_port)
    }

    /// Length of header and payload.
    pub fn length(&self) -> (r: u16)
        ensures
            r == be16(self.length[0], self.length[1]),
    {
        u16_from_be(self.length)
    }

    /// Header read from the first 8 bytes of `data`; `InvalidArgument` when
    /// `data` is shorter.
    pub fn from_bytes(data: &[u8]) -> (r: KernelResult<Self>)
        ensures
            data@.len() < 8 ==> r == Err::<Self, KernelError>(KernelError::InvalidArgument),
            data@.len() >= 8 ==> r is Ok && r->Ok_0.wire() == data@.subrange(0, 8),
    {
        if data.len() < 8 {
            return Err(KernelError::InvalidArgument);
        }
        let h = UdpHeader {
            src_port: [data[0], data[1]],
            dst_port: [data[2], data[3]],
            length: [data[4], data[5]],
            checksum: [data[6], data[7]],
        };
        assert(h.wire() =~= data@.subrange(0, 8));
        Ok(h)
    }

    /// The 8 bytes of the header.
    pub fn to_bytes(&self) -> (r: [u8; 8])
        ensures
            r@ == self.wire(),
    {
        let a = &self.src_port;
        let b = &self.dst_port;
        let c = &self.length;
        let d = &self.checksum;
        let r = [a[0], a[1], b[0], b[1], c[0], c[1], d[0], d[1]];
        assert(r@ =~= self.wire());
        r
    }
}

/// Reading back the bytes of a header gives the same ports and length.
pub proof fn lemma_udp_roundtrip(h: UdpHeader, parsed: UdpHeader)
    requires
        parsed.wire() == h.wire().subrange(0, 8),
    ensures
        parsed.src_port@ == h.src_port@,
        parsed.dst_port@ == h.dst_port@,
        parsed.length@ == h.length@,
        parsed.checksum@ == h.checksum@,
{
    assert(h.wire().subrange(0, 8) =~= h.wire());
    assert(parsed.src_port@ =~= parsed.wire().subrange(0, 2));
    assert(h.src_port@ =~= h.wire().subrange(0, 2));
    assert(parsed.dst_port@ =~= parsed.wire().subrange(2, 4));
    assert(h.dst_port@ =~= h.wire().subrange(2, 4));
    assert(parsed.length@ =~= parsed.wire().subrange(4, 6));
    assert(h.length@ =~= h.wire().subrange(4, 6));
    assert(parsed.checksum@ =~= parsed.wire().subrange(6, 8));
    assert(h.checksum@ =~= h.wire().subrange(6, 8));
}

/// UDP socket state.
#[derive(Debug)]
pub struct UdpSocket {
    /// Local port.
    pub local_port: u16,
    /// Local address.
    pub local_ip: [u8; 4],
    /// Received bytes not yet read.
    pub recv_buffer: Vec<u8>,
    /// Address and port of the last sender.
    pub last_src_addr: ([u8; 4], u16),
}

impl UdpSocket {
    /// Socket bound to `local_ip`:`local_port`, nothing received.
    pub fn new(local_ip: [u8; 4], local_port: u16) -> (r: Self)
        ensures
            r.local_port == local_port,
            r.local_ip == local_ip,
            r.recv_buffer@ == Seq::<u8>::empty(),
            r.last_src_addr.0@ == seq![0u8, 0, 0, 0],
            r.last_src_addr.1 == 0,
    {
        let r = UdpSocket { local_port, local_ip, recv_buffer: Vec::new(), last_src_addr: ([0, 0, 0, 0], 0) };
        assert(r.last_src_addr.0@ =~= seq![0u8, 0, 0, 0]);
        r
    }
}

/// Accepts `data` for sending from `src_port` to `dst_port` and reports its
/// length. The header's length field is 16 bits, so the payload length is
/// taken modulo 65536 and must leave room for the 8 header bytes.
pub fn send_packet(src_port: u16, dst_port: u16, data: &[u8]) -> (r: KernelResult<usize>)
    requires
        data@.len() % 65536 <= 65527,
    ensures
        r == Ok::<usize, KernelError>(data@.len() as usize),
{
    let n = data.len();
    let low: u16 = (n % 65536) as u16;
    let _header = UdpHeader::new(src_port, dst_port, low);
    Ok(n)
}

/// Checks an incoming datagram: `InvalidArgument` when it is shorter than
/// a header or than the length its header gives.
pub fn recv_packet(data: &[u8]) -> (r: KernelResult<()>)
    ensures
        data@.len() < 8 ==> r == Err::<(), KernelError>(KernelError::InvalidArgument),
        data@.len() >= 8 && data@.len() < be16(data@[4], data@[5]) ==> r == Err::<(), KernelError>(KernelError::InvalidArgument),
        data@.len() >= 8 && data@.len() >= be16(data@[4], data@[5]) ==> r == Ok::<(), KernelError>(()),
{
    let header = match UdpHeader::from_bytes(data) {
        Ok(h) => h,
        Err(e) => return Err(e),
    };
    assert(header.length[0] == data@[4] && header.length[1] == data@[5]) by {
        assert(header.wire()[4] == data@[4] && header.wire()[5] == data@[5]);
    }
    if data.len() < header.length() as usize {
        return Err(KernelError::InvalidArgument);
    }
    Ok(())
}

/// Builds a header, checks its ports and length, reads it back from its
/// bytes, and opens a socket; always passes.
pub fn selftest() -> (r: bool)
    ensures
        r,
{
    let header = UdpHeader::new(12345, 80, 10);
    if header.src_port() != 12345 || header.dst_port() != 80 || header.length() != 18 {
        return false;
    }
    let bytes = header.to_bytes();
    let parsed = match UdpHeader::from_bytes(bytes.as_slice()) {
        Ok(p) => p,
        Err(_) => {
            return false;
        },
    };
    proof {
        lemma_udp_roundtrip(header, parsed);
        assert(parsed.src_port[0] == header.src_port[0] && parsed.src_port[1] == header.src_port[1]);
        assert(parsed.dst_port[0] == header.dst_port[0] && parsed.dst_port[1] == header.dst_port[1]);
    }
    if parsed.src_port() != header.src_port() || parsed.dst_port() != header.dst_port() {
        return false;
    }
    let socket = UdpSocket::new([192, 168, 1, 10], 5353);
    socket.local_port == 5353
}

} // verus!
