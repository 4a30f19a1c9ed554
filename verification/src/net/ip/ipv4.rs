use vstd::prelude::*;
use crate::error::{KernelError, KernelResult};
use crate::net::checksum::{checksum16, internet_checksum};
use crate::net::types::{Ipv4Address, be16, u16_to_be, u16_from_be, bytes_equal};

verus! {

/// Length of an IPv4 header without options.
pub const IPV4_HEADER_BYTES: usize = 20;

/// IPv4 header (20 bytes, no options).
#[derive(Debug, Clone, Copy)]
pub struct Ipv4Header {
    /// Version (high nibble) and header length in words (low nibble).
    pub version_ihl: u8,
    /// DSCP and ECN.
    pub dscp_ecn: u8,
    /// Total length, big-endian.
    pub total_length: [u8; 2],
    /// Identification, big-endian.
    pub id: [u8; 2],
    /// Flags (3 bits) and fragment offset (13 bits), big-endian.
    pub flags_fragment_offset: [u8; 2],
    /// Time to live.
    pub ttl: u8,
    /// Protocol number.
    pub protocol: u8,
    /// Header checksum, big-endian.
    pub header_checksum: [u8; 2],
    /// Source address.
    pub src_ip: [u8; 4],
    /// Destination address.
    pub dst_ip: [u8; 4],
}

/// The two big-endian bytes of a checksum value.
pub open spec fn checksum_bytes(c: nat) -> Seq<u8> {
    seq![(c / 256) as u8, (c % 256) as u8]
}

/// Whether bytes 10..12 of the 20 header bytes `w` hold the checksum of
/// `w` with those two bytes zeroed.
pub open spec fn wire_checksum_ok(w: Seq<u8>) -> bool {
    w.subrange(10, 12) == checksum_bytes(internet_checksum(w.update(10, 0).update(11, 0)))
}

impl Ipv4Header {
    /// The 20 bytes of the header as they stand on the wire.
    pub open spec fn wire(&self) -> Seq<u8> {
        seq![self.version_ihl, self.dscp_ecn] + self.total_length@ + self.id@
            + self.flags_fragment_offset@ + seq![self.ttl, self.protocol]
            + self.header_checksum@ + self.src_ip@ + self.dst_ip@
    }

    /// The wire bytes with the checksum field zeroed.
    pub open spec fn wire_unchecked(&self) -> Seq<u8> {
        self.wire().update(10, 0).update(11, 0)
    }

    /// Whether the stored checksum is the checksum of the header with the
    /// checksum field zeroed.
    pub open spec fn checksum_ok(&self) -> bool {
        wire_checksum_ok(self.wire())
    }

    /// Header for a packet from `src_ip` to `dst_ip` carrying `payload_len`
    /// bytes of `protocol`: version 4, IHL 5, TTL 64, id and flags zero,
    /// checksum filled in.
    pub fn new(src_ip: Ipv4Address, dst_ip: Ipv4Address, protocol: u8, payload_len: u16) -> (r: Self)
        requires
            payload_len <= 65515,
        ensures
            r.version_ihl == 0x45,
            r.dscp_ecn == 0,
            be16(r.total_length[0], r.total_length[1]) == 20 + payload_len,
            r.id@ == seq![0u8, 0],
            r.flags_fragment_offset@ == seq![0u8, 0],
            r.ttl == 64,
            r.protocol == protocol,
            r.src_ip@ == src_ip.0@,
            r.dst_ip@ == dst_ip.0@,
            r.checksum_ok(),
    {
        let mut header = Ipv4Header {
            version_ihl: 0x45,
            dscp_ecn: 0,
            total_length: u16_to_be(20u16 + payload_len),
            id: u16_to_be(0),
            flags_fragment_offset: u16_to_be(0),
            ttl: 64,
            protocol,
            header_checksum: [0, 0],
            src_ip: *src_ip.as_bytes(),
            dst_ip: *dst_ip.as_bytes(),
        };
        let bytes = header.to_bytes();
        assert(bytes@ =~= header.wire_unchecked());
        header.header_checksum = Self::checksum(bytes.as_slice());
        assert(header.wire_unchecked() =~= bytes@);
        assert(header.wire().subrange(10, 12) =~= header.header_checksum@);
        header
    }

    /// Version (high nibble of the first byte).
    pub fn version(&self) -> (r: u8)
        ensures
            r == self.version_ihl / 16,
    {
        let v = self.version_ihl;
        assert((v >> 4) & 0x0F == v / 16) by (bit_vector);
        (v >> 4) & 0x0F
    }

    /// Header length in 32-bit words (low nibble of the first byte).
    pub fn ihl(&self) -> (r: u8)
        ensures
            r == self.version_ihl % 16,
    {
        let v = self.version_ihl;
        assert(v & 0x0F == v % 16) by (bit_vector);
        v & 0x0F
    }

    /// Header length in bytes.
    pub fn header_length(&self) -> (r: usize)
        ensures
            r == 4 * (self.version_ihl % 16),
    {
        (self.ihl() as usize) * 4
    }

    /// Total length.
    pub fn total_length(&self) -> (r: u16)
        ensures
            r == be16(self.total_length[0], self.total_length[1]),
    {
        u16_from_be(self.total_length)
    }

    /// Total length minus header length.
    pub fn payload_length(&self) -> (r: u16)
        requires
            be16(self.total_length[0], self.total_length[1]) >= 4 * (self.version_ihl % 16),
        ensures
            r == be16(self.total_length[0], self.total_length[1]) - 4 * (self.version_ihl % 16),
    {
        self.total_length() - (self.header_length() as u16)
    }

    /// Identification.
    pub fn id(&self) -> (r: u16)
        ensures
            r == be16(self.id[0], self.id[1]),
    {
        u16_from_be(self.id)
    }

    /// Flags and fragment offset as one 16-bit value.
    pub fn flags_fragment_offset(&self) -> (r: u16)
        ensures
            r == be16(self.flags_fragment_offset[0], self.flags_fragment_offset[1]),
    {
        u16_from_be(self.flags_fragment_offset)
    }

    /// The three flag bits.
    pub fn flags(&self) -> (r: u8)
        ensures
            r == self.flags_fragment_offset[0] / 32,
    {
        let b = self.flags_fragment_offset[0];
        assert((b >> 5) & 0x07 == b / 32) by (bit_vector);
        (b >> 5) & 0x07
    }

    /// The 13-bit fragment offset.
    pub fn fragment_offset(&self) -> (r: u16)
        ensures
            r == be16(self.flags_fragment_offset[0], self.flags_fragment_offset[1]) % 8192,
    {
        let v = u16_from_be(self.flags_fragment_offset);
        assert(v & 0x1FFF == v % 8192) by (bit_vector);
        v & 0x1FFF
    }

    /// Whether the "don't fragment" flag is set.
    pub fn is_dont_fragment(&self) -> (r: bool)
        ensures
            r == ((self.flags_fragment_offset[0] / 32) / 4 % 2 == 1),
    {
        let f = self.flags();
        assert((f & 0x04 != 0) == (f / 4 % 2 == 1)) by (bit_vector);
        (f & 0x04) != 0
    }

    /// Whether the "more fragments" flag is set.
    pub fn is_more_fragments(&self) -> (r: bool)
        ensures
            r == ((self.flags_fragment_offset[0] / 32) / 2 % 2 == 1),
    {
        let f = self.flags();
        assert((f & 0x02 != 0) == (f / 2 % 2 == 1)) by (bit_vector);
        (f & 0x02) != 0
    }

    /// Time to live.
    pub fn ttl(&self) -> (r: u8)
        ensures
            r == self.ttl,
    {
        self.ttl
    }

    /// Protocol number.
    pub fn protocol(&self) -> (r: u8)
        ensures
            r == self.protocol,
    {
        self.protocol
    }

    /// Source address.
    pub fn src_ip(&self) -> (r: Ipv4Address)
        ensures
            r.0@ == self.src_ip@,
    {
        Ipv4Address::from_bytes(self.src_ip)
    }

    /// Destination address.
    pub fn dst_ip(&self) -> (r: Ipv4Address)
        ensures
            r.0@ == self.dst_ip@,
    {
        Ipv4Address::from_bytes(self.dst_ip)
    }

    /// Whether the stored checksum matches the header.
    pub fn verify_checksum(&self) -> (r: bool)
        ensures
            r == self.checksum_ok(),
    {
        let mut copy = *self;
        copy.header_checksum = [0, 0];
        let bytes = copy.to_bytes();
        assert(bytes@ =~= self.wire_unchecked());
        let calc = Self::checksum(bytes.as_slice());
        let r = self.header_checksum[0] == calc[0] && self.header_checksum[1] == calc[1];
        assert(self.wire().subrange(10, 12) =~= self.header_checksum@);
        proof {
            if r {
                assert(self.header_checksum@ =~= calc@);
            } else {
                assert(self.header_checksum@ != calc@) by {
                    if self.header_checksum[0] != calc[0] {
                        assert(self.header_checksum@[0] != calc@[0]);
                    } else {
                        assert(self.header_checksum@[1] != calc@[1]);
                    }
                }
            }
        }
        r
    }

    /// Internet checksum of `data`, big-endian.
    pub fn checksum(data: &[u8]) -> (r: [u8; 2])
        requires
            data@.len() <= 131072,
        ensures
            r@ == checksum_bytes(internet_checksum(data@)),
    {
        checksum16(data)
    }

    /// Header read from the first 20 bytes of `data`; `InvalidArgument` when
    /// `data` is shorter or the version is not 4.
    pub fn from_bytes(data: &[u8]) -> (r: KernelResult<Self>)
        ensures
            (data@.len() < 20 || data@[0] / 16 != 4)
                ==> r == Err::<Self, KernelError>(KernelError::InvalidArgument),
            !(data@.len() < 20 || data@[0] / 16 != 4) ==> r is Ok && r->Ok_0.wire() == data@.subrange(0, 20),
    {
        if data.len() < IPV4_HEADER_BYTES {
            return Err(KernelError::InvalidArgument);
        }
        let h = Ipv4Header {
            version_ihl: data[0],
            dscp_ecn: data[1],
            total_length: [data[2], data[3]],
            id: [data[4], data[5]],
            flags_fragment_offset: [data[6], data[7]],
            ttl: data[8],
            protocol: data[9],
            header_checksum: [data[10], data[11]],
            src_ip: [data[12], data[13], data[14], data[15]],
            dst_ip: [data[16], data[17], data[18], data[19]],
        };
        if h.version() != 4 {
            return Err(KernelError::InvalidArgument);
        }
        assert(h.wire() =~= data@.subrange(0, 20));
        Ok(h)
    }

    /// The 20 bytes of the header.
    pub fn to_bytes(&self) -> (r: [u8; 20])
        ensures
            r@ == self.wire(),
    {
        let t = &self.total_length;
        let i = &self.id;
        let f = &self.flags_fragment_offset;
        let c = &self.header_checksum;
        let s = &self.src_ip;
        let d = &self.dst_ip;
        let r = [
            self.version_ihl, self.dscp_ecn, t[0], t[1], i[0], i[1], f[0], f[1], self.ttl,
            self.protocol, c[0], c[1], s[0], s[1], s[2], s[3], d[0], d[1], d[2], d[3],
        ];
        assert(r@ =~= self.wire());
        r
    }
}

/// A header read back from the bytes of a header has the same wire bytes,
/// so the same checksum verdict.
pub proof fn lemma_ipv4_roundtrip(h: Ipv4Header, parsed: Ipv4Header)
    requires
        parsed.wire() == h.wire().subrange(0, 20),
    ensures
        parsed.wire() == h.wire(),
        parsed.checksum_ok() == h.checksum_ok(),
        parsed.src_ip@ == h.src_ip@,
        parsed.dst_ip@ == h.dst_ip@,
        parsed.protocol == h.protocol,
{
    assert(h.wire().subrange(0, 20) =~= h.wire());
    assert(parsed.src_ip@ =~= parsed.wire().subrange(12, 16));
    assert(h.src_ip@ =~= h.wire().subrange(12, 16));
    assert(parsed.dst_ip@ =~= parsed.wire().subrange(16, 20));
    assert(h.dst_ip@ =~= h.wire().subrange(16, 20));
    assert(parsed.protocol == parsed.wire()[9]);
}

/// Accepts `data` for the 4-byte address `dest_ip` and reports its length;
/// `InvalidArgument` for an address of another length.
pub fn send_packet(dest_ip: &[u8], protocol: u8, data: &[u8]) -> (r: KernelResult<usize>)
    ensures
        dest_ip@.len() == 4 ==> r == Ok::<usize, KernelError>(data@.len() as usize),
        dest_ip@.len() != 4 ==> r == Err::<usize, KernelError>(KernelError::InvalidArgument),
{
    if dest_ip.len() != 4 {
        return Err(KernelError::InvalidArgument);
    }
    let _dest = Ipv4Address::from_bytes([dest_ip[0], dest_ip[1], dest_ip[2], dest_ip[3]]);
    Ok(data.len())
}

/// Whether an error is the "TTL expired" error of `recv_packet`.
pub open spec fn is_ttl_expired(e: KernelError) -> bool {
    e matches KernelError::Other(m) && m@ == "TTL expired"@
}

/// Checks an incoming packet: `InvalidArgument` when the header does not
/// parse or its checksum is wrong, the "TTL expired" error when the TTL is
/// zero, `Ok` otherwise.
pub fn recv_packet(data: &[u8]) -> (r: KernelResult<()>)
    ensures
        ({
            let h = data@.subrange(0, 20);
            let bad = data@.len() < 20 || data@[0] / 16 != 4;
            &&& bad ==> r == Err::<(), KernelError>(KernelError::InvalidArgument)
            &&& !bad && !wire_checksum_ok(h) ==> r == Err::<(), KernelError>(KernelError::InvalidArgument)
            &&& !bad && wire_checksum_ok(h) && h[8] == 0 ==> r is Err && is_ttl_expired(r->Err_0)
            &&& !bad && wire_checksum_ok(h) && h[8] != 0 ==> r == Ok::<(), KernelError>(())
        }),
{
    let header = match Ipv4Header::from_bytes(data) {
        Ok(h) => h,
        Err(e) => return Err(e),
    };
    assert(header.ttl == header.wire()[8]);
    if !header.verify_checksum() {
        return Err(KernelError::InvalidArgument);
    }
    if header.ttl() == 0 {
        let e = KernelError::Other("TTL expired");
        proof {
            reveal_strlit("TTL expired");
        }
        return Err(e);
    }
    Ok(())
}

/// Builds a header, checks its fields and checksum, and reads it back
/// from its bytes; always passes.
pub fn selftest() -> (r: bool)
    ensures
        r,
{
    let src = Ipv4Address::from_parts(192, 168, 1, 10);
    let dst = Ipv4Address::from_parts(8, 8, 8, 8);
    let header = Ipv4Header::new(src, dst, 6, 100);
    if header.version() != 4 || header.protocol() != 6 || !header.verify_checksum() {
        return false;
    }
    if !bytes_equal(header.src_ip().as_bytes(), src.as_bytes())
        || !bytes_equal(header.dst_ip().as_bytes(), dst.as_bytes()) {
        return false;
    }
    let bytes = header.to_bytes();
    let parsed = match Ipv4Header::from_bytes(bytes.as_slice()) {
        Ok(p) => p,
        Err(_) => {
            return false;
        },
    };
    proof {
        lemma_ipv4_roundtrip(header, parsed);
    }
    bytes_equal(parsed.src_ip().as_bytes(), src.as_bytes())
        && bytes_equal(parsed.dst_ip().as_bytes(), dst.as_bytes())
}

} // verus!
