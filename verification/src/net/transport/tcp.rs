use vstd::prelude::*;
use crate::error::{KernelError, KernelResult};
use crate::net::config::{TcpState, TCP_ACK, TCP_FIN, TCP_RST, TCP_SYN};
use crate::net::types::{be16, be32, u16_to_be, u16_from_be, u32_to_be, u32_from_be};

verus! {

/// TCP header without options (20 bytes).
#[derive(Debug, Clone, Copy)]
pub struct TcpHeader {
    /// Source port, big-endian.
    pub src_port: [u8; 2],
    /// Destination port, big-endian.
    pub dst_port: [u8; 2],
    /// Sequence number, big-endian.
    pub seq_num: [u8; 4],
    /// Acknowledgment number, big-endian.
    pub ack_num: [u8; 4],
    /// Data offset (high nibble) and reserved bits.
    pub data_offset_reserved: u8,
    /// Control flags.
    pub flags: u8,
    /// Window, big-endian.
    pub window: [u8; 2],
    /// Checksum, big-endian.
    pub checksum: [u8; 2],
    /// Urgent pointer, big-endian.
    pub urgent_ptr: [u8; 2],
}

/// Whether `h` is the header that `new(src_port, dst_port, seq_num, flags)`
/// builds, with acknowledgment number `ack_num`.
pub open spec fn is_segment(h: TcpHeader, src_port: u16, dst_port: u16, seq_num: u32, flags: u8, ack_num: u32) -> bool {
    &&& be16(h.src_port[0], h.src_port[1]) == src_port
    &&& be16(h.dst_port[0], h.dst_port[1]) == dst_port
    &&& be32(h.seq_num[0], h.seq_num[1], h.seq_num[2], h.seq_num[3]) == seq_num
    &&& be32(h.ack_num[0], h.ack_num[1], h.ack_num[2], h.ack_num[3]) == ack_num
    &&& h.data_offset_reserved == 0x50
    &&& h.flags == flags
    &&& h.window@ == seq![0xFFu8, 0xFF]
    &&& h.checksum@ == seq![0u8, 0]
    &&& h.urgent_ptr@ == seq![0u8, 0]
}

impl TcpHeader {
    /// The 20 bytes of the header as they stand on the wire.
    pub open spec fn wire(&self) -> Seq<u8> {
        self.src_port@ + self.dst_port@ + self.seq_num@ + self.ack_num@
            + seq![self.data_offset_reserved, self.flags] + self.window@ + self.checksum@
            + self.urgent_ptr@
    }

    /// Header from `src_port` to `dst_port` with `seq_num` and `flags`:
    /// acknowledgment 0, data offset 5, window 65535, checksum and urgent
    /// pointer 0.
    pub fn new(src_port: u16, dst_port: u16, seq_num: u32, flags: u8) -> (r: Self)
        ensures
            be16(r.src_port[0], r.src_port[1]) == src_port,
            be16(r.dst_port[0], r.dst_port[1]) == dst_port,
            be32(r.seq_num[0], r.seq_num[1], r.seq_num[2], r.seq_num[3]) == seq_num,
            r.ack_num@ == seq![0u8, 0, 0, 0],
            r.data_offset_reserved == 0x50,
            r.flags == flags,
            r.window@ == seq![0xFFu8, 0xFF],
            r.checksum@ == seq![0u8, 0],
            r.urgent_ptr@ == seq![0u8, 0],
    {
        let r = TcpHeader {
            src_port: u16_to_be(src_port),
            dst_port: u16_to_be(dst_port),
            seq_num: u32_to_be(seq_num),
            ack_num: [0, 0, 0, 0],
            data_offset_reserved: 0x50,
            flags,
            window: [0xFF, 0xFF],
            checksum: [0, 0],
            urgent_ptr: [0, 0],
        };
        assert(r.ack_num@ =~= seq![0u8, 0, 0, 0]);
        assert(r.window@ =~= seq![0xFFu8, 0xFF]);
        assert(r.checksum@ =~= seq![0u8, 0]);
        assert(r.urgent_ptr@ =~= seq![0u8, 0]);
        r
    }

    /// Source port.
    pub fn src_port(&self) -> (r: u16)
        ensures
            r == be16(self.src_port[0], self.src_port[1]),
    {
        u16_from_be(self.src_port)
    }

    /// Destination port.
    pub fn dst_port(&self) -> (r: u16)
        ensures
            r == be16(self.dst_port[0], self.dst_port[1]),
    {
        u16_from_be(self.dst_port)
    }

    /// Sequence number.
    pub fn seq_num(&self) -> (r: u32)
        ensures
            r == be32(self.seq_num[0], self.seq_num[1], self.seq_num[2], self.seq_num[3]),
    {
        u32_from_be(self.seq_num)
    }

    /// Acknowledgment number.
    pub fn ack_num(&self) -> (r: u32)
        ensures
            r == be32(self.ack_num[0], self.ack_num[1], self.ack_num[2], self.ack_num[3]),
    {
        u32_from_be(self.ack_num)
    }

    /// Data offset in 32-bit words.
    pub fn data_offset(&self) -> (r: u8)
        ensures
            r == self.data_offset_reserved / 16,
    {
        let v = self.data_offset_reserved;
        assert((v >> 4) & 0x0F == v / 16) by (bit_vector);
        (v >> 4) & 0x0F
    }

    /// Header length in bytes.
    pub fn header_length(&self) -> (r: usize)
        ensures
            r == 4 * (self.data_offset_reserved / 16),
    {
        (self.data_offset() as usize) * 4
    }

    /// Window.
    pub fn window(&self) -> (r: u16)
        ensures
            r == be16(self.window[0], self.window[1]),
    {
        u16_from_be(self.window)
    }

    /// Whether SYN (0x02) is set.
    pub fn has_syn(&self) -> (r: bool)
        ensures
            r == (self.flags / 2 % 2 == 1),
    {
        let f = self.flags;
        assert((f & 0x02 != 0) == (f / 2 % 2 == 1)) by (bit_vector);
        (f & TCP_SYN) != 0
    }

    /// Whether ACK (0x10) is set.
    pub fn has_ack(&self) -> (r: bool)
        ensures
            r == (self.flags / 16 % 2 == 1),
    {
        let f = self.flags;
        assert((f & 0x10 != 0) == (f / 16 % 2 == 1)) by (bit_vector);
        (f & TCP_ACK) != 0
    }

    /// Whether FIN (0x01) is set.
    pub fn has_fin(&self) -> (r: bool)
        ensures
            r == (self.flags % 2 == 1),
    {
        let f = self.flags;
        assert((f & 0x01 != 0) == (f % 2 == 1)) by (bit_vector);
        (f & TCP_FIN) != 0
    }

    /// Whether RST (0x04) is set.
    pub fn has_rst(&self) -> (r: bool)
        ensures
            r == (self.flags / 4 % 2 == 1),
    {
        let f = self.flags;
        assert((f & 0x04 != 0) == (f / 4 % 2 == 1)) by (bit_vector);
        (f & TCP_RST) != 0
    }

    /// Header read from the first 20 bytes of `data`; `InvalidArgument` when
    /// `data` is shorter.
    pub fn from_bytes(data: &[u8]) -> (r: KernelResult<Self>)
        ensures
            data@.len() < 20 ==> r == Err::<Self, KernelError>(KernelError::InvalidArgument),
            data@.len() >= 20 ==> r is Ok && r->Ok_0.wire() == data@.subrange(0, 20),
    {
        if data.len() < 20 {
            return Err(KernelError::InvalidArgument);
        }
        let h = TcpHeader {
            src_port: [data[0], data[1]],
            dst_port: [data[2], data[3]],
            seq_num: [data[4], data[5], data[6], data[7]],
            ack_num: [data[8], data[9], data[10], data[11]],
            data_offset_reserved: data[12],
            flags: data[13],
            window: [data[14], data[15]],
            checksum: [data[16], data[17]],
            urgent_ptr: [data[18], data[19]],
        };
        assert(h.wire() =~= data@.subrange(0, 20));
        Ok(h)
    }

    /// The 20 bytes of the header.
    pub fn to_bytes(&self) -> (r: [u8; 20])
        ensures
            r@ == self.wire(),
    {
        let a = &self.src_port;
        let b = &self.dst_port;
        let s = &self.seq_num;
        let k = &self.ack_num;
        let w = &self.window;
        let c = &self.checksum;
        let u = &self.urgent_ptr;
        let r = [
            a[0], a[1], b[0], b[1], s[0], s[1], s[2], s[3], k[0], k[1], k[2], k[3],
            self.data_offset_reserved, self.flags, w[0], w[1], c[0], c[1], u[0], u[1],
        ];
        assert(r@ =~= self.wire());
        r
    }
}

/// Reading back the bytes of a header gives the same ports, numbers and
/// flags.
pub proof fn lemma_tcp_roundtrip(h: TcpHeader, parsed: TcpHeader)
    requires
        parsed.wire() == h.wire().subrange(0, 20),
    ensures
        parsed.src_port@ == h.src_port@,
        parsed.dst_port@ == h.dst_port@,
        parsed.seq_num@ == h.seq_num@,
        parsed.ack_num@ == h.ack_num@,
        parsed.flags == h.flags,
{
    assert(h.wire().subrange(0, 20) =~= h.wire());
    assert(parsed.src_port@ =~= parsed.wire().subrange(0, 2));
    assert(h.src_port@ =~= h.wire().subrange(0, 2));
    assert(parsed.dst_port@ =~= parsed.wire().subrange(2, 4));
    assert(h.dst_port@ =~= h.wire().subrange(2, 4));
    assert(parsed.seq_num@ =~= parsed.wire().subrange(4, 8));
    assert(h.seq_num@ =~= h.wire().subrange(4, 8));
    assert(parsed.ack_num@ =~= parsed.wire().subrange(8, 12));
    assert(h.ack_num@ =~= h.wire().subrange(8, 12));
    assert(parsed.flags == parsed.wire()[13]);
}

/// TCP connection state.
#[derive(Debug, Clone)]
pub struct TcpConnection {
    /// Local address.
    pub src_ip: [u8; 4],
    /// Remote address.
    pub dst_ip: [u8; 4],
    /// Local port.
    pub src_port: u16,
    /// Remote port.
    pub dst_port: u16,
    /// State.
    pub state: TcpState,
    /// Next sequence number to send.
    pub snd_seq: u32,
    /// Next sequence number expected.
    pub rcv_seq: u32,
    /// Received bytes not yet read.
    pub recv_buffer: Vec<u8>,
    /// Bytes not yet sent.
    pub send_buffer: Vec<u8>,
}

impl TcpConnection {
    /// Closed connection for the given four-tuple, sequence numbers 0,
    /// empty buffers.
    pub fn new(src_ip: [u8; 4], dst_ip: [u8; 4], src_port: u16, dst_port: u16) -> (r: Self)
        ensures
            r.src_ip == src_ip,
            r.dst_ip == dst_ip,
            r.src_port == src_port,
            r.dst_port == dst_port,
            r.state == TcpState::Closed,
            r.snd_seq == 0,
            r.rcv_seq == 0,
            r.recv_buffer@ == Seq::<u8>::empty(),
            r.send_buffer@ == Seq::<u8>::empty(),
    {
        TcpConnection {
            src_ip,
            dst_ip,
            src_port,
            dst_port,
            state: TcpState::Closed,
            snd_seq: 0,
            rcv_seq: 0,
            recv_buffer: Vec::new(),
            send_buffer: Vec::new(),
        }
    }

    /// Local address, local port, remote address, remote port.
    pub fn tuple(&self) -> (r: ([u8; 4], u16, [u8; 4], u16))
        ensures
            r == (self.src_ip, self.src_port, self.dst_ip, self.dst_port),
    {
        (self.src_ip, self.src_port, self.dst_ip, self.dst_port)
    }
}

/// Accepts `data` for sending from `src_port` to `dst_port` and reports its
/// length.
pub fn send_packet(src_port: u16, dst_port: u16, data: &[u8]) -> (r: KernelResult<usize>)
    ensures
        r == Ok::<usize, KernelError>(data@.len() as usize),
{
    let _header = TcpHeader::new(src_port, dst_port, 0, TCP_ACK);
    Ok(data.len())
}

/// Checks an incoming segment: `InvalidArgument` when it is shorter than a
/// header.
pub fn recv_packet(data: &[u8]) -> (r: KernelResult<()>)
    ensures
        data@.len() < 20 ==> r == Err::<(), KernelError>(KernelError::InvalidArgument),
        data@.len() >= 20 ==> r == Ok::<(), KernelError>(()),
{
    let _header = match TcpHeader::from_bytes(data) {
        Ok(h) => h,
        Err(e) => return Err(e),
    };
    Ok(())
}

/// SYN segment header.
pub fn create_syn(src_port: u16, dst_port: u16, seq_num: u32) -> (r: TcpHeader)
    ensures
        is_segment(r, src_port, dst_port, seq_num, 0x02, 0),
{
    TcpHeader::new(src_port, dst_port, seq_num, TCP_SYN)
}

/// SYN+ACK segment header acknowledging `ack_num`.
pub fn create_synack(src_port: u16, dst_port: u16, seq_num: u32, ack_num: u32) -> (r: TcpHeader)
    ensures
        is_segment(r, src_port, dst_port, seq_num, 0x12, ack_num),
{
    let mut header = TcpHeader::new(src_port, dst_port, seq_num, TCP_SYN | TCP_ACK);
    assert(TCP_SYN | TCP_ACK == 0x12u8) by (bit_vector);
    header.ack_num = u32_to_be(ack_num);
    header
}

/// ACK segment header acknowledging `ack_num`.
pub fn create_ack(src_port: u16, dst_port: u16, seq_num: u32, ack_num: u32) -> (r: TcpHeader)
    ensures
        is_segment(r, src_port, dst_port, seq_num, 0x10, ack_num),
{
    let mut header = TcpHeader::new(src_port, dst_port, seq_num, TCP_ACK);
    header.ack_num = u32_to_be(ack_num);
    header
}

/// FIN+ACK segment header.
pub fn create_fin(src_port: u16, dst_port: u16, seq_num: u32) -> (r: TcpHeader)
    ensures
        is_segment(r, src_port, dst_port, seq_num, 0x11, 0),
{
    assert(TCP_FIN | TCP_ACK == 0x11u8) by (bit_vector);
    TcpHeader::new(src_port, dst_port, seq_num, TCP_FIN | TCP_ACK)
}

/// Builds a SYN and a SYN+ACK header, checks their fields and flags, reads
/// the SYN back from its bytes, and opens a connection; always passes.
pub fn selftest() -> (r: bool)
    ensures
        r,
{
    let header = TcpHeader::new(12345, 80, 1000, TCP_SYN);
    if header.src_port() != 12345 || header.dst_port() != 80 || header.seq_num() != 1000 || !header.has_syn() {
        return false;
    }
    let synack = create_synack(80, 12345, 2000, 1001);
    if !synack.has_syn() || !synack.has_ack() || synack.ack_num() != 1001 {
        return false;
    }
    let bytes = header.to_bytes();
    let parsed = match TcpHeader::from_bytes(bytes.as_slice()) {
        Ok(p) => p,
        Err(_) => {
            return false;
        },
    };
    proof {
        lemma_tcp_roundtrip(header, parsed);
        assert(parsed.src_port[0] == header.src_port[0] && parsed.src_port[1] == header.src_port[1]);
    }
    if parsed.src_port() != header.src_port() {
        return false;
    }
    let conn = TcpConnection::new([192, 168, 1, 10], [8, 8, 8, 8], 12345, 80);
    conn.state == TcpState::Closed
}

} // verus!
