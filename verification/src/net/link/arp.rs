use vstd::prelude::*;
use crate::error::{KernelError, KernelResult};
use crate::net::link::ethernet::{EthernetFrame, EthernetHeader};
use crate::net::types::{MacAddress, Ipv4Address, be16, u16_to_be, u16_from_be, bytes_equal};

verus! {

/// Length of an ARP packet (Ethernet + IPv4) on the wire.
pub const ARP_PACKET_BYTES: usize = 28;

/// ARP operation.
#[derive(Debug, Clone, Copy, PartialEq, Eq, Structural)]
pub enum ArpOp {
    /// Request (code 1).
    Request,
    /// Reply (code 2).
    Reply,
}

/// Wire code of an operation.
pub open spec fn arp_op_code(op: ArpOp) -> u16 {
    match op {
        ArpOp::Request => 1,
        ArpOp::Reply => 2,
    }
}

impl ArpOp {
    /// Wire code: 1 for a request, 2 for a reply.
    pub fn code(self) -> (r: u16)
        ensures
            r == arp_op_code(self),
    {
        match self {
            ArpOp::Request => 1,
            ArpOp::Reply => 2,
        }
    }
}

/// ARP packet for Ethernet and IPv4 (28 bytes).
#[derive(Debug, Clone, Copy)]
pub struct ArpHeader {
    /// Hardware type (1 = Ethernet), big-endian.
    pub hw_type: [u8; 2],
    /// Protocol type (0x0800 = IPv4), big-endian.
    pub proto_type: [u8; 2],
    /// Hardware address length.
    pub hw_len: u8,
    /// Protocol address length.
    pub proto_len: u8,
    /// Operation code, big-endian.
    pub op: [u8; 2],
    /// Sender MAC.
    pub sender_hw: [u8; 6],
    /// Sender IPv4 address.
    pub sender_proto: [u8; 4],
    /// Target MAC.
    pub target_hw: [u8; 6],
    /// Target IPv4 address.
    pub target_proto: [u8; 4],
}

impl ArpHeader {
    /// The 28 bytes of the packet as they stand on the wire.
    pub open spec fn wire(&self) -> Seq<u8> {
        self.hw_type@ + self.proto_type@ + seq![self.hw_len, self.proto_len] + self.op@
            + self.sender_hw@ + self.sender_proto@ + self.target_hw@ + self.target_proto@
    }

    /// Packet for Ethernet/IPv4 with the given operation and addresses.
    pub fn new(
        op: ArpOp,
        sender_mac: MacAddress,
        sender_ip: Ipv4Address,
        target_mac: MacAddress,
        target_ip: Ipv4Address,
    ) -> (r: Self)
        ensures
            r.hw_type@ == seq![0u8, 1],
            r.proto_type@ == seq![8u8, 0],
            r.hw_len == 6,
            r.proto_len == 4,
            r.op@ == seq![0u8, arp_op_code(op) as u8],
            r.sender_hw@ == sender_mac.0@,
            r.sender_proto@ == sender_ip.0@,
            r.target_hw@ == target_mac.0@,
            r.target_proto@ == target_ip.0@,
    {
        ArpHeader {
            hw_type: u16_to_be(1),
            proto_type: u16_to_be(0x0800),
            hw_len: 6,
            proto_len: 4,
            op: u16_to_be(op.code()),
            sender_hw: *sender_mac.as_bytes(),
            sender_proto: *sender_ip.as_bytes(),
            target_hw: *target_mac.as_bytes(),
            target_proto: *target_ip.as_bytes(),
        }
    }

    /// The operation: `Request` for code 1, `Reply` for code 2,
    /// `InvalidArgument` for any other code.
    pub fn op(&self) -> (r: KernelResult<ArpOp>)
        ensures
            be16(self.op[0], self.op[1]) == 1 ==> r == Ok::<ArpOp, KernelError>(ArpOp::Request),
            be16(self.op[0], self.op[1]) == 2 ==> r == Ok::<ArpOp, KernelError>(ArpOp::Reply),
            be16(self.op[0], self.op[1]) != 1 && be16(self.op[0], self.op[1]) != 2
                ==> r == Err::<ArpOp, KernelError>(KernelError::InvalidArgument),
    {
        let code = u16_from_be(self.op);
        if code == 1 {
            Ok(ArpOp::Request)
        } else if code == 2 {
            Ok(ArpOp::Reply)
        } else {
            Err(KernelError::InvalidArgument)
        }
    }

    /// Sender MAC address.
    pub fn sender_mac(&self) -> (r: MacAddress)
        ensures
            r.0@ == self.sender_hw@,
    {
        MacAddress::from_bytes(self.sender_hw)
    }

    /// Sender IPv4 address.
    pub fn sender_ip(&self) -> (r: Ipv4Address)
        ensures
            r.0@ == self.sender_proto@,
    {
        Ipv4Address::from_bytes(self.sender_proto)
    }

    /// Target MAC address.
    pub fn target_mac(&self) -> (r: MacAddress)
        ensures
            r.0@ == self.target_hw@,
    {
        MacAddress::from_bytes(self.target_hw)
    }

    /// Target IPv4 address.
    pub fn target_ip(&self) -> (r: Ipv4Address)
        ensures
            r.0@ == self.target_proto@,
    {
        Ipv4Address::from_bytes(self.target_proto)
    }

    /// Packet read from the first 28 bytes of `data`; `InvalidArgument` when
    /// `data` is shorter.
    pub fn from_bytes(data: &[u8]) -> (r: KernelResult<Self>)
        ensures
            data@.len() < 28 ==> r == Err::<Self, KernelError>(KernelError::InvalidArgument),
            data@.len() >= 28 ==> r is Ok && r->Ok_0.wire() == data@.subrange(0, 28),
    {
        if data.len() < ARP_PACKET_BYTES {
            return Err(KernelError::InvalidArgument);
        }
        let h = ArpHeader {
            hw_type: [data[0], data[1]],
            proto_type: [data[2], data[3]],
            hw_len: data[4],
            proto_len: data[5],
            op: [data[6], data[7]],
            sender_hw: [data[8], data[9], data[10], data[11], data[12], data[13]],
            sender_proto: [data[14], data[15], data[16], data[17]],
            target_hw: [data[18], data[19], data[20], data[21], data[22], data[23]],
            target_proto: [data[24], data[25], data[26], data[27]],
        };
        assert(h.wire() =~= data@.subrange(0, 28));
        Ok(h)
    }

    /// The 28 bytes of the packet.
    pub fn to_bytes(&self) -> (r: [u8; 28])
        ensures
            r@ == self.wire(),
    {
        let a = &self.hw_type;
        let b = &self.proto_type;
        let o = &self.op;
        let sh = &self.sender_hw;
        let sp = &self.sender_proto;
        let th = &self.target_hw;
        let tp = &self.target_proto;
        let r = [
            a[0], a[1], b[0], b[1], self.hw_len, self.proto_len, o[0], o[1],
            sh[0], sh[1], sh[2], sh[3], sh[4], sh[5], sp[0], sp[1], sp[2], sp[3],
            th[0], th[1], th[2], th[3], th[4], th[5], tp[0], tp[1], tp[2], tp[3],
        ];
        assert(r@ =~= self.wire());
        r
    }
}

/// Reading back the bytes of a packet gives the same sender and target
/// addresses and the same operation code.
pub proof fn lemma_arp_roundtrip(h: ArpHeader, parsed: ArpHeader)
    requires
        parsed.wire() == h.wire().subrange(0, 28),
    ensures
        parsed.op@ == h.op@,
        parsed.sender_hw@ == h.sender_hw@,
        parsed.sender_proto@ == h.sender_proto@,
        parsed.target_hw@ == h.target_hw@,
        parsed.target_proto@ == h.target_proto@,
{
    assert(h.wire().subrange(0, 28) =~= h.wire());
    assert(parsed.op@ =~= parsed.wire().subrange(6, 8));
    assert(h.op@ =~= h.wire().subrange(6, 8));
    assert(parsed.sender_hw@ =~= parsed.wire().subrange(8, 14));
    assert(h.sender_hw@ =~= h.wire().subrange(8, 14));
    assert(parsed.sender_proto@ =~= parsed.wire().subrange(14, 18));
    assert(h.sender_proto@ =~= h.wire().subrange(14, 18));
    assert(parsed.target_hw@ =~= parsed.wire().subrange(18, 24));
    assert(h.target_hw@ =~= h.wire().subrange(18, 24));
    assert(parsed.target_proto@ =~= parsed.wire().subrange(24, 28));
    assert(h.target_proto@ =~= h.wire().subrange(24, 28));
}

/// State of an ARP cache entry.
#[derive(Debug, Clone, Copy, PartialEq, Eq, Structural)]
pub enum ArpEntryState {
    /// Request sent, no reply yet.
    Incomplete,
    /// Resolved.
    Reachable,
    /// Unreachable after repeated failures.
    Failed,
}

/// ARP cache entry.
#[derive(Debug, Clone)]
pub struct ArpEntry {
    /// IPv4 address.
    pub ip: Ipv4Address,
    /// MAC address.
    pub mac: MacAddress,
    /// State.
    pub state: ArpEntryState,
    /// Time of creation, in seconds.
    pub timestamp: u64,
    /// Failure count.
    pub failures: u8,
}

impl ArpEntry {
    /// Reachable entry for `ip` → `mac`, time stamp 0, no failures.
    pub fn new(ip: Ipv4Address, mac: MacAddress) -> (r: Self)
        ensures
            r.ip == ip,
            r.mac == mac,
            r.state == ArpEntryState::Reachable,
            r.timestamp == 0,
            r.failures == 0,
    {
        ArpEntry { ip, mac, state: ArpEntryState::Reachable, timestamp: 0, failures: 0 }
    }

    /// Whether more than `timeout` seconds have passed since the time stamp.
    pub fn is_expired(&self, current_time: u64, timeout: u64) -> (r: bool)
        requires
            current_time >= self.timestamp,
        ensures
            r == (current_time - self.timestamp > timeout),
    {
        (current_time - self.timestamp) > timeout
    }
}

/// Broadcast frame carrying an ARP request from `sender_mac`/`sender_ip`
/// for `target_ip` (target MAC all zero).
pub fn create_request(
    sender_mac: MacAddress,
    sender_ip: Ipv4Address,
    target_ip: Ipv4Address,
) -> (r: EthernetFrame)
    ensures
        r.header.dest_mac@ == seq![0xFFu8, 0xFF, 0xFF, 0xFF, 0xFF, 0xFF],
        r.header.src_mac@ == sender_mac.0@,
        be16(r.header.ether_type[0], r.header.ether_type[1]) == 0x0806,
        r.payload@ == ArpHeader::new_spec(ArpOp::Request, sender_mac, sender_ip,
            seq![0u8, 0, 0, 0, 0, 0], target_ip.0@),
{
    let arp = ArpHeader::new(ArpOp::Request, sender_mac, sender_ip, MacAddress::zero(), target_ip);
    let eth = EthernetHeader::new(MacAddress::broadcast(), sender_mac, 0x0806);
    let bytes = arp.to_bytes();
    EthernetFrame::new(eth, array_to_vec28(&bytes))
}

/// Frame carrying an ARP reply from `sender_mac`/`sender_ip` to
/// `target_mac`/`target_ip`.
pub fn create_reply(
    sender_mac: MacAddress,
    sender_ip: Ipv4Address,
    target_mac: MacAddress,
    target_ip: Ipv4Address,
) -> (r: EthernetFrame)
    ensures
        r.header.dest_mac@ == target_mac.0@,
        r.header.src_mac@ == sender_mac.0@,
        be16(r.header.ether_type[0], r.header.ether_type[1]) == 0x0806,
        r.payload@ == ArpHeader::new_spec(ArpOp::Reply, sender_mac, sender_ip, target_mac.0@,
            target_ip.0@),
{
    let arp = ArpHeader::new(ArpOp::Reply, sender_mac, sender_ip, target_mac, target_ip);
    let eth = EthernetHeader::new(target_mac, sender_mac, 0x0806);
    let bytes = arp.to_bytes();
    EthernetFrame::new(eth, array_to_vec28(&bytes))
}

impl ArpHeader {
    /// Wire bytes of the packet that `new` builds from these addresses.
    pub open spec fn new_spec(
        op: ArpOp,
        sender_mac: MacAddress,
        sender_ip: Ipv4Address,
        target_mac: Seq<u8>,
        target_ip: Seq<u8>,
    ) -> Seq<u8> {
        seq![0u8, 1, 8, 0, 6, 4, 0, arp_op_code(op) as u8] + sender_mac.0@ + sender_ip.0@
            + target_mac + target_ip
    }
}

fn array_to_vec28(a: &[u8; 28]) -> (r: Vec<u8>)
    ensures
        r@ == a@,
{
    let mut v: Vec<u8> = Vec::new();
    let mut i: usize = 0;
    while i < 28
        invariant
            0 <= i <= 28,
            v@ == a@.subrange(0, i as int),
        decreases 28 - i,
    {
        v.push(a[i]);
        i = i + 1;
        assert(v@ =~= a@.subrange(0, i as int));
    }
    assert(a@.subrange(0, 28) =~= a@);
    v
}

/// The ARP packet at the start of the frame's payload; `InvalidArgument`
/// when the payload is shorter than 28 bytes.
pub fn parse_arp_frame(frame: &EthernetFrame) -> (r: KernelResult<ArpHeader>)
    ensures
        frame.payload@.len() < 28 ==> r == Err::<ArpHeader, KernelError>(KernelError::InvalidArgument),
        frame.payload@.len() >= 28 ==> r is Ok && r->Ok_0.wire() == frame.payload@.subrange(0, 28),
{
    if frame.payload.len() < ARP_PACKET_BYTES {
        return Err(KernelError::InvalidArgument);
    }
    ArpHeader::from_bytes(frame.payload.as_slice())
}

/// Builds an ARP request and reply, checks their sizes, and reads the
/// request's addresses back; always passes.
pub fn selftest() -> (r: bool)
    ensures
        r,
{
    let ip1 = Ipv4Address::from_parts(192, 168, 1, 1);
    let expect1: [u8; 4] = [192, 168, 1, 1];
    if !bytes_equal(ip1.as_bytes(), &expect1) {
        return false;
    }
    let sender_mac = MacAddress::from_bytes([0x00, 0x11, 0x22, 0x33, 0x44, 0x55]);
    let sender_ip = Ipv4Address::from_parts(192, 168, 1, 10);
    let target_ip = Ipv4Address::from_parts(192, 168, 1, 1);
    let request = create_request(sender_mac, sender_ip, target_ip);
    if request.payload.len() != 28 {
        return false;
    }
    let target_mac = MacAddress::from_bytes([0xAA, 0xBB, 0xCC, 0xDD, 0xEE, 0xFF]);
    let reply = create_reply(target_mac, target_ip, sender_mac, sender_ip);
    if reply.payload.len() != 28 {
        return false;
    }
    let parsed = match parse_arp_frame(&request) {
        Ok(p) => p,
        Err(_) => {
            return false;
        },
    };
    proof {
        let w = parsed.wire();
        assert(request.payload@.subrange(0, 28) =~= request.payload@);
        assert(parsed.sender_proto@ =~= w.subrange(14, 18));
        assert(parsed.target_proto@ =~= w.subrange(24, 28));
        assert(w.subrange(14, 18) =~= sender_ip.0@);
        assert(w.subrange(24, 28) =~= target_ip.0@);
    }
    bytes_equal(parsed.sender_ip().as_bytes(), sender_ip.as_bytes())
        && bytes_equal(parsed.target_ip().as_bytes(), target_ip.as_bytes())
}

} // verus!
