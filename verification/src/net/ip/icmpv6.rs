use vstd::prelude::*;
use crate::error::{KernelError, KernelResult};
use crate::net::ip::icmp::{echo_rest, msg_wire};
use crate::net::types::{Ipv6Address, be16, u16_to_be, u16_from_be};

verus! {

/// ICMPv6 message type.
#[derive(Debug, Clone, Copy, PartialEq, Eq, Structural)]
pub enum Icmpv6Type {
    /// Destination unreachable (1).
    DestinationUnreachable,
    /// Packet too big (2).
    PacketTooBig,
    /// Time exceeded (3).
    TimeExceeded,
    /// Parameter problem (4).
    ParameterProblem,
    /// Echo request (128).
    EchoRequest,
    /// Echo reply (129).
    EchoReply,
    /// Router solicitation (133).
    RouterSolicitation,
    /// Router advertisement (134).
    RouterAdvertisement,
    /// Neighbor solicitation (135).
    NeighborSolicitation,
    /// Neighbor advertisement (136).
    NeighborAdvertisement,
}

/// Wire code of a message type.
pub open spec fn v6_type_code(t: Icmpv6Type) -> u8 {
    match t {
        Icmpv6Type::DestinationUnreachable => 1,
        Icmpv6Type::PacketTooBig => 2,
        Icmpv6Type::TimeExceeded => 3,
        Icmpv6Type::ParameterProblem => 4,
        Icmpv6Type::EchoRequest => 128,
        Icmpv6Type::EchoReply => 129,
        Icmpv6Type::RouterSolicitation => 133,
        Icmpv6Type::RouterAdvertisement => 134,
        Icmpv6Type::NeighborSolicitation => 135,
        Icmpv6Type::NeighborAdvertisement => 136,
    }
}

/// Message type of a wire code, if it is one of the ten known.
pub open spec fn v6_type_of(val: u8) -> Option<Icmpv6Type> {
    if val == 1 { Some(Icmpv6Type::DestinationUnreachable) }
    else if val == 2 { Some(Icmpv6Type::PacketTooBig) }
    else if val == 3 { Some(Icmpv6Type::TimeExceeded) }
    else if val == 4 { Some(Icmpv6Type::ParameterProblem) }
    else if val == 128 { Some(Icmpv6Type::EchoRequest) }
    else if val == 129 { Some(Icmpv6Type::EchoReply) }
    else if val == 133 { Some(Icmpv6Type::RouterSolicitation) }
    else if val == 134 { Some(Icmpv6Type::RouterAdvertisement) }
    else if val == 135 { Some(Icmpv6Type::NeighborSolicitation) }
    else if val == 136 { Some(Icmpv6Type::NeighborAdvertisement) }
    else { None }
}

impl Icmpv6Type {
    /// Type of a wire code; `None` for an unknown code.
    pub fn from_u8(val: u8) -> (r: Option<Self>)
        ensures
            r == v6_type_of(val),
    {
        match val {
            1 => Some(Icmpv6Type::DestinationUnreachable),
            2 => Some(Icmpv6Type::PacketTooBig),
            3 => Some(Icmpv6Type::TimeExceeded),
            4 => Some(Icmpv6Type::ParameterProblem),
            128 => Some(Icmpv6Type::EchoRequest),
            129 => Some(Icmpv6Type::EchoReply),
            133 => Some(Icmpv6Type::RouterSolicitation),
            134 => Some(Icmpv6Type::RouterAdvertisement),
            135 => Some(Icmpv6Type::NeighborSolicitation),
            136 => Some(Icmpv6Type::NeighborAdvertisement),
            _ => None,
        }
    }

    /// Wire code of the type.
    pub fn code(self) -> (r: u8)
        ensures
            r == v6_type_code(self),
    {
        match self {
            Icmpv6Type::DestinationUnreachable => 1,
            Icmpv6Type::PacketTooBig => 2,
            Icmpv6Type::TimeExceeded => 3,
            Icmpv6Type::ParameterProblem => 4,
            Icmpv6Type::EchoRequest => 128,
            Icmpv6Type::EchoReply => 129,
            Icmpv6Type::RouterSolicitation => 133,
            Icmpv6Type::RouterAdvertisement => 134,
            Icmpv6Type::NeighborSolicitation => 135,
            Icmpv6Type::NeighborAdvertisement => 136,
        }
    }
}

/// Decoding a type's code gives the type back.
pub proof fn lemma_v6_type_code_roundtrip(t: Icmpv6Type)
    ensures
        v6_type_of(v6_type_code(t)) == Some(t),
{
}

/// ICMPv6 header (8 bytes).
#[derive(Debug, Clone, Copy)]
pub struct Icmpv6Header {
    /// Message type.
    pub msg_type: u8,
    /// Code.
    pub code: u8,
    /// Checksum, big-endian.
    pub checksum: [u8; 2],
    /// Rest of the header (identifier and sequence for echo messages).
    pub rest: [u8; 4],
}

impl Icmpv6Header {
    /// The 8 bytes of the header as they stand on the wire.
    pub open spec fn wire(&self) -> Seq<u8> {
        msg_wire(self.msg_type, self.code, self.checksum@, self.rest@)
    }

    fn echo(msg_type: u8, sequence: u16, id: u16) -> (r: Self)
        ensures
            r.msg_type == msg_type,
            r.code == 0,
            r.checksum@ == seq![0u8, 0],
            r.rest@ == echo_rest(sequence, id),
    {
        let i = u16_to_be(id);
        let s = u16_to_be(sequence);
        let r = Icmpv6Header { msg_type, code: 0, checksum: [0, 0], rest: [i[0], i[1], s[0], s[1]] };
        assert(r.rest@ =~= echo_rest(sequence, id));
        assert(r.checksum@ =~= seq![0u8, 0]);
        r
    }

    /// Echo request (type 128) with `sequence` and `id`, checksum zero.
    pub fn echo_request(sequence: u16, id: u16) -> (r: Self)
        ensures
            r.msg_type == 128,
            r.code == 0,
            r.checksum@ == seq![0u8, 0],
            r.rest@ == echo_rest(sequence, id),
    {
        Self::echo(Icmpv6Type::EchoRequest.code(), sequence, id)
    }

    /// Echo reply (type 129) with `sequence` and `id`, checksum zero.
    pub fn echo_reply(sequence: u16, id: u16) -> (r: Self)
        ensures
            r.msg_type == 129,
            r.code == 0,
            r.checksum@ == seq![0u8, 0],
            r.rest@ == echo_rest(sequence, id),
    {
        Self::echo(Icmpv6Type::EchoReply.code(), sequence, id)
    }

    /// Message type, if known.
    pub fn msg_type(&self) -> (r: Option<Icmpv6Type>)
        ensures
            r == v6_type_of(self.msg_type),
    {
        Icmpv6Type::from_u8(self.msg_type)
    }

    /// Sequence number (bytes 2..4 of the rest).
    pub fn sequence(&self) -> (r: u16)
        ensures
            r == be16(self.rest[2], self.rest[3]),
    {
        u16_from_be([self.rest[2], self.rest[3]])
    }

    /// Identifier (bytes 0..2 of the rest).
    pub fn id(&self) -> (r: u16)
        ensures
            r == be16(self.rest[0], self.rest[1]),
    {
        u16_from_be([self.rest[0], self.rest[1]])
    }

    /// Header read from the first 8 bytes of `data`; `InvalidArgument` when
    /// `data` is shorter.
    pub fn from_bytes(data: &[u8]) -> (r: KernelResult<Self>)
        ensures
            data@.len() < 8 ==> r == Err::<Self, KernelError>(KernelError::InvalidArgument),
            data@.len() >= 8 ==> r is Ok && r->Ok_0.wire() == data@.subrange(0, 8),
    {
        if data.len() < 8 {
            return Err(KernelError::InvalidArgument);
        }
        let h = Icmpv6Header {
            msg_type: data[0],
            code: data[1],
            checksum: [data[2], data[3]],
            rest: [data[4], data[5], data[6], data[7]],
        };
        assert(h.wire() =~= data@.subrange(0, 8));
        Ok(h)
    }

    /// The 8 bytes of the header.
    pub fn to_bytes(&self) -> (r: [u8; 8])
        ensures
            r@ == self.wire(),
    {
        let c = &self.checksum;
        let t = &self.rest;
        let r = [self.msg_type, self.code, c[0], c[1], t[0], t[1], t[2], t[3]];
        assert(r@ =~= self.wire());
        r
    }
}

/// Reading back the bytes of a header gives the same type, code, checksum
/// and rest.
pub proof fn lemma_v6_header_roundtrip(h: Icmpv6Header, parsed: Icmpv6Header)
    requires
        parsed.wire() == h.wire().subrange(0, 8),
    ensures
        parsed.msg_type == h.msg_type,
        parsed.code == h.code,
        parsed.checksum@ == h.checksum@,
        parsed.rest@ == h.rest@,
{
    assert(h.wire().subrange(0, 8) =~= h.wire());
    assert(parsed.checksum@ =~= parsed.wire().subrange(2, 4));
    assert(h.checksum@ =~= h.wire().subrange(2, 4));
    assert(parsed.rest@ =~= parsed.wire().subrange(4, 8));
    assert(h.rest@ =~= h.wire().subrange(4, 8));
    assert(parsed.msg_type == parsed.wire()[0] && parsed.code == parsed.wire()[1]);
}

/// Accepts an ICMPv6 message; `InvalidArgument` when `data` is shorter than
/// a header.
pub fn handle_icmpv6(src_addr: Ipv6Address, dst_addr: Ipv6Address, data: &[u8]) -> (r: KernelResult<()>)
    ensures
        data@.len() < 8 ==> r == Err::<(), KernelError>(KernelError::InvalidArgument),
        data@.len() >= 8 ==> r == Ok::<(), KernelError>(()),
{
    let _header = match Icmpv6Header::from_bytes(data) {
        Ok(h) => h,
        Err(e) => return Err(e),
    };
    Ok(())
}

/// Body of a neighbor solicitation: the target address.
#[derive(Debug, Clone, Copy)]
pub struct NeighborSolicitation {
    /// Target address.
    pub target_addr: [u8; 16],
}

impl NeighborSolicitation {
    /// Solicitation for `target_addr`.
    pub fn new(target_addr: Ipv6Address) -> (r: Self)
        ensures
            r.target_addr@ == target_addr.0@,
    {
        NeighborSolicitation { target_addr: *target_addr.as_bytes() }
    }

    /// The 16 bytes of the body.
    pub fn to_bytes(&self) -> (r: [u8; 16])
        ensures
            r@ == self.target_addr@,
    {
        self.target_addr
    }
}

/// Body of a neighbor advertisement: flags byte, 3 reserved bytes, target
/// address.
#[derive(Debug, Clone, Copy)]
pub struct NeighborAdvertisement {
    /// Flags (R = 0x80, S = 0x40, O = 0x20), reserved bytes, target address.
    pub flags_and_target: [u8; 20],
}

/// The flags byte for the router, solicited and override flags.
pub open spec fn na_flags(router: bool, solicited: bool, override_: bool) -> u8 {
    ((if router { 128int } else { 0 }) + (if solicited { 64int } else { 0 })
        + (if override_ { 32int } else { 0 })) as u8
}

/// The advertisement's flags byte carries each flag in its own bit, as
/// RFC 4861 lays them out: the router flag in 0x80, the solicited flag in
/// 0x40, the override flag in 0x20, and nothing in the low five bits; so
/// `is_router` and `is_solicited` read back the flags it was built with.
pub proof fn lemma_na_flag_bits(router: bool, solicited: bool, override_: bool)
    ensures
        (na_flags(router, solicited, override_) & 0x80u8 != 0) == router,
        (na_flags(router, solicited, override_) & 0x40u8 != 0) == solicited,
        (na_flags(router, solicited, override_) & 0x20u8 != 0) == override_,
        na_flags(router, solicited, override_) & 0x1fu8 == 0,
        (na_flags(router, solicited, override_) >= 128) == router,
        (na_flags(router, solicited, override_) / 64 % 2 == 1) == solicited,
{
    let b = na_flags(router, solicited, override_);
    let x: u8 = if router { 1 } else { 0 };
    let y: u8 = if solicited { 1 } else { 0 };
    let z: u8 = if override_ { 1 } else { 0 };
    assert(b == 128 * x + 64 * y + 32 * z);
    assert(x <= 1 && y <= 1 && z <= 1);
    assert(((128 * x + 64 * y + 32 * z) as u8 & 0x80u8 != 0) == (x == 1)
        && ((128 * x + 64 * y + 32 * z) as u8 & 0x40u8 != 0) == (y == 1)
        && ((128 * x + 64 * y + 32 * z) as u8 & 0x20u8 != 0) == (z == 1)
        && (128 * x + 64 * y + 32 * z) as u8 & 0x1fu8 == 0) by (bit_vector)
        requires
            x <= 1,
            y <= 1,
            z <= 1;
}

impl NeighborAdvertisement {
    /// Advertisement for `target_addr` with the given flags.
    pub fn new(target_addr: Ipv6Address, router: bool, solicited: bool, override_: bool) -> (r: Self)
        ensures
            r.flags_and_target@ == seq![na_flags(router, solicited, override_), 0u8, 0, 0] + target_addr.0@,
            (r.flags_and_target[0] & 0x80u8 != 0) == router,
            (r.flags_and_target[0] & 0x40u8 != 0) == solicited,
            (r.flags_and_target[0] & 0x20u8 != 0) == override_,
            (r.flags_and_target[0] >= 128) == router,
            (r.flags_and_target[0] / 64 % 2 == 1) == solicited,
    {
        proof {
            lemma_na_flag_bits(router, solicited, override_);
        }
        let mut flags: u8 = 0;
        if router {
            flags = flags + 0x80;
        }
        if solicited {
            flags = flags + 0x40;
        }
        if override_ {
            flags = flags + 0x20;
        }
        let t = target_addr.as_bytes();
        let r = NeighborAdvertisement {
            flags_and_target: [
                flags, 0, 0, 0, t[0], t[1], t[2], t[3], t[4], t[5], t[6], t[7], t[8], t[9], t[10],
                t[11], t[12], t[13], t[14], t[15],
            ],
        };
        assert(r.flags_and_target@ =~= seq![na_flags(router, solicited, override_), 0u8, 0, 0] + target_addr.0@);
        r
    }

    /// Target address (bytes 4..20).
    pub fn target_addr(&self) -> (r: Ipv6Address)
        ensures
            r.0@ == self.flags_and_target@.subrange(4, 20),
    {
        let a = &self.flags_and_target;
        let r = Ipv6Address::from_bytes([
            a[4], a[5], a[6], a[7], a[8], a[9], a[10], a[11], a[12], a[13], a[14], a[15], a[16],
            a[17], a[18], a[19],
        ]);
        assert(r.0@ =~= self.flags_and_target@.subrange(4, 20));
        r
    }

    /// Whether the router flag (0x80) is set.
    pub fn is_router(&self) -> (r: bool)
        ensures
            r == (self.flags_and_target[0] >= 128),
    {
        let b = self.flags_and_target[0];
        assert((b & 0x80 != 0) == (b >= 128)) by (bit_vector);
        (b & 0x80) != 0
    }

    /// Whether the solicited flag (0x40) is set.
    pub fn is_solicited(&self) -> (r: bool)
        ensures
            r == (self.flags_and_target[0] / 64 % 2 == 1),
    {
        let b = self.flags_and_target[0];
        assert((b & 0x40 != 0) == (b / 64 % 2 == 1)) by (bit_vector);
        (b & 0x40) != 0
    }
}

/// Answer to a neighbor solicitation for `target_addr`: an advertisement
/// with the solicited and override flags set.
pub fn handle_neighbor_solicitation(src_addr: Ipv6Address, target_addr: Ipv6Address) -> (r: NeighborAdvertisement)
    ensures
        r.flags_and_target@ == seq![0x60u8, 0, 0, 0] + target_addr.0@,
{
    NeighborAdvertisement::new(target_addr, false, true, true)
}

/// Accepts a neighbor advertisement.
pub fn handle_neighbor_advertisement(
    src_addr: Ipv6Address,
    target_addr: Ipv6Address,
    mac_addr: [u8; 6],
) -> (r: KernelResult<()>)
    ensures
        r == Ok::<(), KernelError>(()),
{
    Ok(())
}

/// Checks the echo type codes, builds an echo request and reply, reads the
/// request back from its bytes, and checks which type codes are known;
/// always passes.
pub fn selftest() -> (r: bool)
    ensures
        r,
{
    if Icmpv6Type::EchoRequest.code() != 128 || Icmpv6Type::EchoReply.code() != 129 {
        return false;
    }
    let header = Icmpv6Header::echo_request(1, 0x5678);
    match header.msg_type() {
        Some(Icmpv6Type::EchoRequest) => {},
        _ => {
            return false;
        },
    }
    proof {
        assert(header.rest[2] == 0 && header.rest[3] == 1);
        assert(header.rest[0] == 0x56 && header.rest[1] == 0x78);
    }
    if header.sequence() != 1 || header.id() != 0x5678 {
        return false;
    }
    let reply = Icmpv6Header::echo_reply(1, 0x5678);
    match reply.msg_type() {
        Some(Icmpv6Type::EchoReply) => {},
        _ => {
            return false;
        },
    }
    let bytes = header.to_bytes();
    let parsed = match Icmpv6Header::from_bytes(bytes.as_slice()) {
        Ok(p) => p,
        Err(_) => {
            return false;
        },
    };
    proof {
        lemma_v6_header_roundtrip(header, parsed);
        assert(parsed.rest[0] == header.rest[0] && parsed.rest[1] == header.rest[1]);
        assert(parsed.rest[2] == header.rest[2] && parsed.rest[3] == header.rest[3]);
    }
    if parsed.sequence() != header.sequence() || parsed.id() != header.id() {
        return false;
    }
    Icmpv6Type::from_u8(1).is_some() && Icmpv6Type::from_u8(133).is_some() && Icmpv6Type::from_u8(135).is_some()
        && Icmpv6Type::from_u8(255).is_none()
}

} // verus!
