use vstd::prelude::*;
use crate::error::{KernelError, KernelResult};
use crate::net::checksum::{checksum16, internet_checksum, word_sum, lemma_checksum_cancels, lemma_word_sum_concat};
use crate::net::ip::ipv4;
use crate::net::ip::ipv4::checksum_bytes;
use crate::net::types::{Ipv4Address, be16, u16_to_be, u16_from_be, append_bytes};

verus! {

/// Length of an ICMP header.
pub const ICMP_HEADER_BYTES: usize = 8;

/// Largest number of bytes of the offending packet quoted in an error message.
pub const ICMP_QUOTE_MAX: usize = 28;

/// ICMP message type.
#[derive(Debug, Clone, Copy, PartialEq, Eq, Structural)]
pub enum IcmpType {
    /// Echo reply (0).
    EchoReply,
    /// Destination unreachable (3).
    DestinationUnreachable,
    /// Echo request (8).
    EchoRequest,
    /// Time exceeded (11).
    TimeExceeded,
}

/// Wire code of a message type.
pub open spec fn type_code(t: IcmpType) -> u8 {
    match t {
        IcmpType::EchoReply => 0,
        IcmpType::DestinationUnreachable => 3,
        IcmpType::EchoRequest => 8,
        IcmpType::TimeExceeded => 11,
    }
}

/// Message type of a wire code, if it is one of the four known.
pub open spec fn type_of_code(val: u8) -> Option<IcmpType> {
    if val == 0 {
        Some(IcmpType::EchoReply)
    } else if val == 3 {
        Some(IcmpType::DestinationUnreachable)
    } else if val == 8 {
        Some(IcmpType::EchoRequest)
    } else if val == 11 {
        Some(IcmpType::TimeExceeded)
    } else {
        None
    }
}

impl IcmpType {
    /// Type of a wire code; `None` for an unknown code.
    pub fn from_u8(val: u8) -> (r: Option<Self>)
        ensures
            r == type_of_code(val),
    {
        match val {
            0 => Some(IcmpType::EchoReply),
            3 => Some(IcmpType::DestinationUnreachable),
            8 => Some(IcmpType::EchoRequest),
            11 => Some(IcmpType::TimeExceeded),
            _ => None,
        }
    }

    /// Wire code of the type.
    pub fn code(self) -> (r: u8)
        ensures
            r == type_code(self),
    {
        match self {
            IcmpType::EchoReply => 0,
            IcmpType::DestinationUnreachable => 3,
            IcmpType::EchoRequest => 8,
            IcmpType::TimeExceeded => 11,
        }
    }
}

/// Decoding a type's code gives the type back.
pub proof fn lemma_type_code_roundtrip(t: IcmpType)
    ensures
        type_of_code(type_code(t)) == Some(t),
{
}

/// Codes of "destination unreachable".
#[derive(Debug, Clone, Copy, PartialEq, Eq, Structural)]
pub enum DestUnreachCode {
    /// Network unreachable (0).
    NetworkUnreachable,
    /// Host unreachable (1).
    HostUnreachable,
    /// Protocol unreachable (2).
    ProtocolUnreachable,
    /// Port unreachable (3).
    PortUnreachable,
}

/// ICMP header (8 bytes).
#[derive(Debug, Clone, Copy)]
pub struct IcmpHeader {
    /// Message type.
    pub msg_type: u8,
    /// Code.
    pub code: u8,
    /// Checksum, big-endian.
    pub checksum: [u8; 2],
    /// Rest of the header (identifier and sequence for echo messages).
    pub rest: [u8; 4],
}

/// The 8 header bytes of an ICMP message with the given fields.
pub open spec fn msg_wire(msg_type: u8, code: u8, checksum: Seq<u8>, rest: Seq<u8>) -> Seq<u8> {
    seq![msg_type, code] + checksum + rest
}

/// Identifier then sequence, each big-endian.
pub open spec fn echo_rest(sequence: u16, id: u16) -> Seq<u8> {
    seq![(id / 256) as u8, (id % 256) as u8, (sequence / 256) as u8, (sequence % 256) as u8]
}

impl IcmpHeader {
    /// The 8 bytes of the header as they stand on the wire.
    pub open spec fn wire(&self) -> Seq<u8> {
        msg_wire(self.msg_type, self.code, self.checksum@, self.rest@)
    }

    fn echo(msg_type: u8, sequence: u16, id: u16) -> (r: Self)
        ensures
            r.msg_type == msg_type,
            r.code == 0,
            r.checksum@ == seq![0u8, 0],
            r.rest@ == echo_rest(sequence, id),
    {
        let i = u16_to_be(id);
        let s = u16_to_be(sequence);
        let r = IcmpHeader { msg_type, code: 0, checksum: [0, 0], rest: [i[0], i[1], s[0], s[1]] };
        assert(r.rest@ =~= echo_rest(sequence, id));
        assert(r.checksum@ =~= seq![0u8, 0]);
        r
    }

    /// Echo request (type 8) with `sequence` and `id`, checksum zero.
    pub fn echo_request(sequence: u16, id: u16) -> (r: Self)
        ensures
            r.msg_type == 8,
            r.code == 0,
            r.checksum@ == seq![0u8, 0],
            r.rest@ == echo_rest(sequence, id),
    {
        Self::echo(IcmpType::EchoRequest.code(), sequence, id)
    }

    /// Echo reply (type 0) with `sequence` and `id`, checksum zero.
    pub fn echo_reply(sequence: u16, id: u16) -> (r: Self)
        ensures
            r.msg_type == 0,
            r.code == 0,
            r.checksum@ == seq![0u8, 0],
            r.rest@ == echo_rest(sequence, id),
    {
        Self::echo(IcmpType::EchoReply.code(), sequence, id)
    }

    /// Message type, if known.
    pub fn msg_type(&self) -> (r: Option<IcmpType>)
        ensures
            r == type_of_code(self.msg_type),
    {
        IcmpType::from_u8(self.msg_type)
    }

    /// Sequence number (bytes 2..4 of the rest).
    pub fn sequence(&self) -> (r: u16)
        ensures
            r == be16(self.rest[2], self.rest[3]),
    {
        u16_from_be([self.rest[2], self.rest[3]])
    }

    /// Identifier (bytes 0..2 of the rest).
    pub fn id(&self) -> (r: u16)
        ensures
            r == be16(self.rest[0], self.rest[1]),
    {
        u16_from_be([self.rest[0], self.rest[1]])
    }

    /// Internet checksum of `header`, big-endian.
    pub fn compute_checksum(header: &[u8]) -> (r: [u8; 2])
        requires
            header@.len() <= 131072,
        ensures
            r@ == checksum_bytes(internet_checksum(header@)),
    {
        checksum16(header)
    }

    /// Header read from the first 8 bytes of `data`; `InvalidArgument` when
    /// `data` is shorter.
    pub fn from_bytes(data: &[u8]) -> (r: KernelResult<Self>)
        ensures
            data@.len() < 8 ==> r == Err::<Self, KernelError>(KernelError::InvalidArgument),
            data@.len() >= 8 ==> r is Ok && r->Ok_0.wire() == data@.subrange(0, 8),
    {
        if data.len() < ICMP_HEADER_BYTES {
            return Err(KernelError::InvalidArgument);
        }
        let h = IcmpHeader {
            msg_type: data[0],
            code: data[1],
            checksum: [data[2], data[3]],
            rest: [data[4], data[5], data[6], data[7]],
        };
        assert(h.wire() =~= data@.subrange(0, 8));
        Ok(h)
    }

    /// The 8 bytes of the header.
    pub fn to_bytes(&self) -> (r: [u8; 8])
        ensures
            r@ == self.wire(),
    {
        let c = &self.checksum;
        let t = &self.rest;
        let r = [self.msg_type, self.code, c[0], c[1], t[0], t[1], t[2], t[3]];
        assert(r@ =~= self.wire());
        r
    }
}

/// Reading back the bytes of a header gives the same type, code, checksum
/// and rest.
pub proof fn lemma_header_roundtrip(h: IcmpHeader, parsed: IcmpHeader)
    requires
        parsed.wire() == h.wire().subrange(0, 8),
    ensures
        parsed.msg_type == h.msg_type,
        parsed.code == h.code,
        parsed.checksum@ == h.checksum@,
        parsed.rest@ == h.rest@,
{
    assert(h.wire().subrange(0, 8) =~= h.wire());
    assert(parsed.checksum@ =~= parsed.wire().subrange(2, 4));
    assert(h.checksum@ =~= h.wire().subrange(2, 4));
    assert(parsed.rest@ =~= parsed.wire().subrange(4, 8));
    assert(h.rest@ =~= h.wire().subrange(4, 8));
    assert(parsed.msg_type == parsed.wire()[0] && parsed.code == parsed.wire()[1]);
}

/// An ICMP message: the header with its checksum over header and body
/// filled in, followed by the body.
pub open spec fn checksummed_message(msg_type: u8, code: u8, rest: Seq<u8>, body: Seq<u8>) -> Seq<u8> {
    msg_wire(msg_type, code,
        checksum_bytes(internet_checksum(msg_wire(msg_type, code, seq![0u8, 0], rest) + body)), rest)
        + body
}

/// A message built with its checksum filled in verifies: the Internet
/// checksum over the whole message, checksum field included, is zero.
pub proof fn lemma_checksummed_message_verifies(msg_type: u8, code: u8, rest: Seq<u8>, body: Seq<u8>)
    requires
        rest.len() == 4,
    ensures
        internet_checksum(checksummed_message(msg_type, code, rest, body)) == 0,
{
    let head = seq![msg_type, code];
    let tail = rest + body;
    let zero = seq![0u8, 0u8];
    let z = msg_wire(msg_type, code, zero, rest) + body;
    let sum = word_sum(z);
    lemma_checksum_cancels(sum);
    let c = internet_checksum(z);
    let cs = checksum_bytes(c);
    let m = checksummed_message(msg_type, code, rest, body);
    assert(z =~= head + (zero + tail));
    assert(m =~= head + (cs + tail));
    lemma_word_sum_concat(head, zero + tail);
    lemma_word_sum_concat(zero, tail);
    lemma_word_sum_concat(head, cs + tail);
    lemma_word_sum_concat(cs, tail);
    assert(word_sum(Seq::<u8>::empty()) == 0);
    assert(zero.subrange(2, 2) =~= Seq::<u8>::empty());
    assert(cs.subrange(2, 2) =~= Seq::<u8>::empty());
    assert(zero[0] == 0 && zero[1] == 0 && zero.len() == 2);
    assert(word_sum(zero) == 0);
    assert(c <= 65535);
    assert((c / 256) as u8 as nat == c / 256);
    assert((c % 256) as u8 as nat == c % 256);
    assert(word_sum(cs) == c);
    assert(word_sum(m) == sum + c);
}

/// The echo reply that answers the echo request `data`: same identifier,
/// sequence and data, checksum filled in.
pub open spec fn echo_reply_message(data: Seq<u8>) -> Seq<u8> {
    checksummed_message(0, 0, data.subrange(4, 8), data.subrange(8, data.len() as int))
}

/// Builds the echo reply for the echo request `data`; `None` when `data`
/// is not an echo request (too short, or another type).
pub fn echo_reply_for(data: &[u8]) -> (r: Option<Vec<u8>>)
    requires
        data@.len() <= 131072,
    ensures
        (data@.len() >= 8 && data@[0] == 8) ==> r is Some && r->Some_0@ == echo_reply_message(data@),
        !(data@.len() >= 8 && data@[0] == 8) ==> r is None,
{
    if data.len() < ICMP_HEADER_BYTES || data[0] != 8 {
        return None;
    }
    let header = match IcmpHeader::from_bytes(data) {
        Ok(h) => h,
        Err(_) => return None,
    };
    let reply = IcmpHeader::echo_reply(header.sequence(), header.id());
    let payload = slice_from(data, ICMP_HEADER_BYTES);
    let hb = reply.to_bytes();
    let mut packet: Vec<u8> = Vec::new();
    append_bytes(&mut packet, hb.as_slice());
    append_bytes(&mut packet, payload.as_slice());
    let c = IcmpHeader::compute_checksum(packet.as_slice());
    packet.set(2, c[0]);
    packet.set(3, c[1]);
    proof {
        let rest = data@.subrange(4, 8);
        assert(header.rest@ =~= rest) by {
            assert(header.rest@ =~= header.wire().subrange(4, 8));
        }
        assert(reply.rest@ =~= rest);
        assert(packet@ =~= echo_reply_message(data@));
    }
    Some(packet)
}

/// The bytes of `data` from `start` on.
fn slice_from(data: &[u8], start: usize) -> (r: Vec<u8>)
    requires
        start <= data@.len(),
    ensures
        r@ == data@.subrange(start as int, data@.len() as int),
{
    let mut v: Vec<u8> = Vec::new();
    let mut i: usize = start;
    while i < data.len()
        invariant
            start <= i <= data@.len(),
            v@ == data@.subrange(start as int, i as int),
        decreases data@.len() - i,
    {
        v.push(data[i]);
        i = i + 1;
        assert(v@ =~= data@.subrange(start as int, i as int));
    }
    v
}

/// A message handed to the IPv4 layer: its destination, protocol number
/// and bytes.
pub struct Ipv4Send {
    /// Destination address.
    pub dest: [u8; 4],
    /// Protocol number of the payload.
    pub protocol: u8,
    /// The bytes to send.
    pub payload: Vec<u8>,
}

/// Whether `out` is the echo reply to the echo request `data` from `src`:
/// sent back to `src`, as ICMP, with the reply's bytes.
pub open spec fn is_echo_answer(out: Ipv4Send, src: Ipv4Address, data: Seq<u8>) -> bool {
    &&& out.dest@ == src.0@
    &&& out.protocol == 1
    &&& out.payload@ == echo_reply_message(data)
}

/// Handles an incoming ICMP message from `src_ip`: an echo request is
/// answered with an echo reply sent back to `src_ip`, which is returned as
/// the message handed to the IPv4 layer; other types are accepted and
/// answered with nothing. `InvalidArgument` when `data` is shorter than a
/// header.
pub fn handle_icmp(src_ip: Ipv4Address, dst_ip: Ipv4Address, data: &[u8]) -> (r: KernelResult<Option<Ipv4Send>>)
    requires
        data@.len() >= 8 && data@[0] == 8 ==> data@.len() <= 131072,
    ensures
        data@.len() < 8 ==> r is Err && r->Err_0 == KernelError::InvalidArgument,
        data@.len() >= 8 && data@[0] == 8 ==> (r matches Ok(Some(out)) && is_echo_answer(out, src_ip, data@)),
        data@.len() >= 8 && data@[0] != 8 ==> r matches Ok(None),
{
    let _header = match IcmpHeader::from_bytes(data) {
        Ok(h) => h,
        Err(e) => return Err(e),
    };
    if data[0] != 8 {
        return Ok(None);
    }
    match echo_reply_for(data) {
        Some(reply) => {
            let dest = *src_ip.as_bytes();
            let out = Ipv4Send { dest, protocol: 1, payload: reply };
            let _ = ipv4::send_packet(out.dest.as_slice(), out.protocol, out.payload.as_slice());
            Ok(Some(out))
        },
        None => Ok(None),
    }
}

/// Entry point from the IPv4 layer: same as `handle_icmp`.
pub fn recv_icmp(data: &[u8], src_ip: Ipv4Address, dst_ip: Ipv4Address) -> (r: KernelResult<Option<Ipv4Send>>)
    requires
        data@.len() >= 8 && data@[0] == 8 ==> data@.len() <= 131072,
    ensures
        data@.len() < 8 ==> r is Err && r->Err_0 == KernelError::InvalidArgument,
        data@.len() >= 8 && data@[0] == 8 ==> (r matches Ok(Some(out)) && is_echo_answer(out, src_ip, data@)),
        data@.len() >= 8 && data@[0] != 8 ==> r matches Ok(None),
{
    handle_icmp(src_ip, dst_ip, data)
}

/// The quoted part of an offending packet: at most its first 28 bytes.
pub open spec fn quote(datagram: Seq<u8>) -> Seq<u8> {
    if datagram.len() <= 28 { datagram } else { datagram.subrange(0, 28) }
}

/// The first `min(28, len)` bytes of `datagram`.
fn quote_bytes(datagram: &[u8]) -> (r: Vec<u8>)
    ensures
        r@ == quote(datagram@),
{
    let n = if datagram.len() < ICMP_QUOTE_MAX { datagram.len() } else { ICMP_QUOTE_MAX };
    let mut quoted: Vec<u8> = Vec::new();
    let mut i: usize = 0;
    while i < n
        invariant
            n <= 28,
            n <= datagram@.len(),
            n == datagram@.len() || n == 28,
            i <= n,
            quoted@ == datagram@.subrange(0, i as int),
        decreases n - i,
    {
        quoted.push(datagram[i]);
        i = i + 1;
        assert(quoted@ =~= datagram@.subrange(0, i as int));
    }
    assert(quoted@ =~= quote(datagram@));
    quoted
}

fn error_message(msg_type: u8, code: u8, datagram_header: &[u8]) -> (r: (IcmpHeader, Vec<u8>))
    ensures
        r.0.msg_type == msg_type,
        r.0.code == code,
        r.0.rest@ == seq![0u8, 0, 0, 0],
        r.0.checksum@ == checksum_bytes(internet_checksum(
            msg_wire(msg_type, code, seq![0u8, 0], seq![0u8, 0, 0, 0]) + quote(datagram_header@))),
        r.1@ == checksummed_message(msg_type, code, seq![0u8, 0, 0, 0], quote(datagram_header@)),
{
    let mut header = IcmpHeader { msg_type, code, checksum: [0, 0], rest: [0, 0, 0, 0] };
    let quoted = quote_bytes(datagram_header);
    let mut packet: Vec<u8> = Vec::new();
    append_bytes(&mut packet, header.to_bytes().as_slice());
    append_bytes(&mut packet, quoted.as_slice());
    assert(header.rest@ =~= seq![0u8, 0, 0, 0]);
    assert(header.checksum@ =~= seq![0u8, 0]);
    header.checksum = IcmpHeader::compute_checksum(packet.as_slice());
    let mut result: Vec<u8> = Vec::new();
    append_bytes(&mut result, header.to_bytes().as_slice());
    append_bytes(&mut result, quoted.as_slice());
    (header, result)
}

/// "Time exceeded" (type 11, code 0) quoting at most the first 28 bytes of
/// `datagram_header`: the header and the whole message.
pub fn create_time_exceeded(datagram_header: &[u8]) -> (r: (IcmpHeader, Vec<u8>))
    ensures
        r.0.msg_type == 11,
        r.0.code == 0,
        r.0.rest@ == seq![0u8, 0, 0, 0],
        r.1@ == checksummed_message(11, 0, seq![0u8, 0, 0, 0], quote(datagram_header@)),
        r.1@.subrange(0, 8) == r.0.wire(),
{
    let r = error_message(IcmpType::TimeExceeded.code(), 0, datagram_header);
    assert(r.1@.subrange(0, 8) =~= r.0.wire());
    r
}

/// "Destination unreachable" (type 3) with `code`, quoting at most the
/// first 28 bytes of `datagram_header`: the header and the whole message.
pub fn create_destination_unreachable(code: u8, datagram_header: &[u8]) -> (r: (IcmpHeader, Vec<u8>))
    ensures
        r.0.msg_type == 3,
        r.0.code == code,
        r.0.rest@ == seq![0u8, 0, 0, 0],
        r.1@ == checksummed_message(3, code, seq![0u8, 0, 0, 0], quote(datagram_header@)),
        r.1@.subrange(0, 8) == r.0.wire(),
{
    let r = error_message(IcmpType::DestinationUnreachable.code(), code, datagram_header);
    assert(r.1@.subrange(0, 8) =~= r.0.wire());
    r
}

/// Builds an echo request and reply, checks their type, sequence and
/// identifier, and reads the request back from its bytes; always passes.
pub fn selftest() -> (r: bool)
    ensures
        r,
{
    let header = IcmpHeader::echo_request(1, 0x1234);
    match header.msg_type() {
        Some(IcmpType::EchoRequest) => {},
        _ => {
            return false;
        },
    }
    proof {
        assert(header.rest[2] == 0 && header.rest[3] == 1);
        assert(header.rest[0] == 0x12 && header.rest[1] == 0x34);
    }
    if header.sequence() != 1 || header.id() != 0x1234 {
        return false;
    }
    let reply = IcmpHeader::echo_reply(1, 0x1234);
    match reply.msg_type() {
        Some(IcmpType::EchoReply) => {},
        _ => {
            return false;
        },
    }
    let bytes = header.to_bytes();
    let parsed = match IcmpHeader::from_bytes(bytes.as_slice()) {
        Ok(p) => p,
        Err(_) => {
            return false;
        },
    };
    proof {
        lemma_header_roundtrip(header, parsed);
        assert(parsed.rest[2] == header.rest[2] && parsed.rest[3] == header.rest[3]);
    }
    parsed.sequence() == header.sequence()
}

} // verus!
