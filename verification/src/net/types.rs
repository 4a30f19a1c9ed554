use vstd::prelude::*;

verus! {

/// Big-endian value of two bytes.
pub open spec fn be16(hi: u8, lo: u8) -> nat {
    (hi as nat) * 256 + (lo as nat)
}

/// Big-endian value of four bytes.
pub open spec fn be32(a: u8, b: u8, c: u8, d: u8) -> nat {
    (a as nat) * 16777216 + (b as nat) * 65536 + (c as nat) * 256 + (d as nat)
}

/// The two bytes of `v`, most significant first.
pub fn u16_to_be(v: u16) -> (r: [u8; 2])
    ensures
        be16(r[0], r[1]) == v,
        r@ == seq![(v / 256) as u8, (v % 256) as u8],
{
    let r = [(v / 256) as u8, (v % 256) as u8];
    assert(r@ =~= seq![(v / 256) as u8, (v % 256) as u8]);
    r
}

/// The value of two bytes, the first most significant.
pub fn u16_from_be(b: [u8; 2]) -> (r: u16)
    ensures
        r == be16(b[0], b[1]),
{
    (b[0] as u16) * 256 + (b[1] as u16)
}

/// The four bytes of `v`, most significant first.
pub fn u32_to_be(v: u32) -> (r: [u8; 4])
    ensures
        be32(r[0], r[1], r[2], r[3]) == v,
        r@ == seq![(v / 16777216) as u8, ((v / 65536) % 256) as u8, ((v / 256) % 256) as u8, (v % 256) as u8],
{
    let r = [(v / 16777216) as u8, ((v / 65536) % 256) as u8, ((v / 256) % 256) as u8, (v % 256) as u8];
    assert(r@ =~= seq![(v / 16777216) as u8, ((v / 65536) % 256) as u8, ((v / 256) % 256) as u8, (v % 256) as u8]);
    r
}

/// The value of four bytes, the first most significant.
pub fn u32_from_be(b: [u8; 4]) -> (r: u32)
    ensures
        r == be32(b[0], b[1], b[2], b[3]),
{
    (b[0] as u32) * 16777216 + (b[1] as u32) * 65536 + (b[2] as u32) * 256 + (b[3] as u32)
}

/// Decoding the big-endian bytes of a `u32` gives the value back, and
/// encoding the value of four bytes gives the bytes back.
pub proof fn lemma_be32_roundtrip(v: u32, a: u8, b: u8, c: u8, d: u8)
    ensures
        be32((v / 16777216) as u8, ((v / 65536) % 256) as u8, ((v / 256) % 256) as u8, (v % 256) as u8) == v,
        ({
            let w = be32(a, b, c, d);
            &&& (w / 16777216) as u8 == a
            &&& ((w / 65536) % 256) as u8 == b
            &&& ((w / 256) % 256) as u8 == c
            &&& (w % 256) as u8 == d
        }),
{
    assert(be32((v / 16777216) as u8, ((v / 65536) % 256) as u8, ((v / 256) % 256) as u8, (v % 256) as u8) == v) by (nonlinear_arith);
    let w = be32(a, b, c, d);
    assert((w / 16777216) as u8 == a && ((w / 65536) % 256) as u8 == b
        && ((w / 256) % 256) as u8 == c && (w % 256) as u8 == d) by (nonlinear_arith)
        requires w == (a as nat) * 16777216 + (b as nat) * 65536 + (c as nat) * 256 + (d as nat);
}

/// Appends the bytes of `src` to `dst`.
pub fn append_bytes(dst: &mut Vec<u8>, src: &[u8])
    ensures
        final(dst)@ == old(dst)@ + src@,
{
    let ghost start = dst@;
    let mut i: usize = 0;
    while i < src.len()
        invariant
            i <= src@.len(),
            dst@ == start + src@.subrange(0, i as int),
        decreases src@.len() - i,
    {
        dst.push(src[i]);
        i = i + 1;
        assert(dst@ =~= start + src@.subrange(0, i as int));
    }
    assert(src@.subrange(0, i as int) =~= src@);
}

/// MAC address (6 bytes).
#[derive(Debug, Clone, Copy, PartialEq, Eq, Hash, PartialOrd, Ord)]
pub struct MacAddress(pub [u8; 6]);

impl MacAddress {
    /// Address with the given bytes.
    pub fn from_bytes(bytes: [u8; 6]) -> (r: Self)
        ensures
            r.0@ == bytes@,
    {
        MacAddress(bytes)
    }

    /// The six bytes.
    pub fn as_bytes(&self) -> (r: &[u8; 6])
        ensures
            r@ == self.0@,
    {
        &self.0
    }

    /// ff:ff:ff:ff:ff:ff.
    pub fn broadcast() -> (r: Self)
        ensures
            r.0@ == seq![0xFFu8, 0xFF, 0xFF, 0xFF, 0xFF, 0xFF],
    {
        let r = MacAddress([0xFFu8, 0xFF, 0xFF, 0xFF, 0xFF, 0xFF]);
        assert(r.0@ =~= seq![0xFFu8, 0xFF, 0xFF, 0xFF, 0xFF, 0xFF]);
        r
    }

    /// 00:00:00:00:00:00.
    pub fn zero() -> (r: Self)
        ensures
            r.0@ == seq![0u8, 0, 0, 0, 0, 0],
    {
        let r = MacAddress([0u8, 0, 0, 0, 0, 0]);
        assert(r.0@ =~= seq![0u8, 0, 0, 0, 0, 0]);
        r
    }

    /// Whether every byte is 0xFF.
    pub fn is_broadcast(&self) -> (r: bool)
        ensures
            r == (forall|i: int| 0 <= i < 6 ==> #[trigger] self.0[i] == 0xFF),
    {
        let b = &self.0;
        let r = b[0] == 0xFF && b[1] == 0xFF && b[2] == 0xFF && b[3] == 0xFF && b[4] == 0xFF
            && b[5] == 0xFF;
        proof {
            if !r {
                if b[0] != 0xFF { assert(self.0[0] != 0xFF); }
                else if b[1] != 0xFF { assert(self.0[1] != 0xFF); }
                else if b[2] != 0xFF { assert(self.0[2] != 0xFF); }
                else if b[3] != 0xFF { assert(self.0[3] != 0xFF); }
                else if b[4] != 0xFF { assert(self.0[4] != 0xFF); }
                else { assert(self.0[5] != 0xFF); }
            }
        }
        r
    }

    /// Whether the group bit (lowest bit of the first byte) is set.
    pub fn is_multicast(&self) -> (r: bool)
        ensures
            r == (self.0[0] % 2 == 1),
    {
        let b0 = self.0[0];
        assert(b0 & 1 == b0 % 2) by (bit_vector);
        (b0 & 0x01) != 0
    }
}

/// Whether two byte strings are equal.
pub fn bytes_equal(a: &[u8], b: &[u8]) -> (r: bool)
    ensures
        r == (a@ == b@),
{
    if a.len() != b.len() {
        return false;
    }
    let mut i: usize = 0;
    while i < a.len()
        invariant
            i <= a@.len(),
            a@.len() == b@.len(),
            forall|k: int| 0 <= k < i ==> a@[k] == b@[k],
        decreases a@.len() - i,
    {
        if a[i] != b[i] {
            assert(a@[i as int] != b@[i as int]);
            return false;
        }
        i = i + 1;
    }
    assert(a@ =~= b@);
    true
}

/// IPv4 address (4 bytes, network order).
#[derive(Debug, Clone, Copy, PartialEq, Eq, Hash, PartialOrd, Ord)]
pub struct Ipv4Address(pub [u8; 4]);

impl Ipv4Address {
    /// Big-endian value of the address.
    pub open spec fn value(&self) -> nat {
        be32(self.0[0], self.0[1], self.0[2], self.0[3])
    }

    /// Address with the given bytes.
    pub fn from_bytes(bytes: [u8; 4]) -> (r: Self)
        ensures
            r.0@ == bytes@,
    {
        Ipv4Address(bytes)
    }

    /// The four bytes.
    pub fn as_bytes(&self) -> (r: &[u8; 4])
        ensures
            r@ == self.0@,
    {
        &self.0
    }

    /// a.b.c.d.
    pub fn from_parts(a: u8, b: u8, c: u8, d: u8) -> (r: Self)
        ensures
            r.0@ == seq![a, b, c, d],
    {
        let r = Ipv4Address([a, b, c, d]);
        assert(r.0@ =~= seq![a, b, c, d]);
        r
    }

    /// 0.0.0.0.
    pub fn zero() -> (r: Self)
        ensures
            r.0@ == seq![0u8, 0, 0, 0],
    {
        Ipv4Address::from_parts(0, 0, 0, 0)
    }

    /// 255.255.255.255.
    pub fn broadcast() -> (r: Self)
        ensures
            r.0@ == seq![255u8, 255, 255, 255],
    {
        Ipv4Address::from_parts(255, 255, 255, 255)
    }

    /// 127.0.0.1.
    pub fn loopback() -> (r: Self)
        ensures
            r.0@ == seq![127u8, 0, 0, 1],
    {
        Ipv4Address::from_parts(127, 0, 0, 1)
    }

    /// Whether the address lies in 224.0.0.0/4.
    pub fn is_multicast(&self) -> (r: bool)
        ensures
            r == (224 <= self.0[0] < 240),
    {
        let b0 = self.0[0];
        assert((b0 & 0xF0 == 0xE0) == (224 <= b0 && b0 < 240)) by (bit_vector);
        (b0 & 0xF0) == 0xE0
    }

    /// The address as a big-endian `u32`.
    pub fn as_u32(&self) -> (r: u32)
        ensures
            r == self.value(),
    {
        u32_from_be(self.0)
    }

    /// The address whose big-endian value is `addr`.
    pub fn from_u32(addr: u32) -> (r: Self)
        ensures
            r.value() == addr,
            r.0@ == seq![(addr / 16777216) as u8, ((addr / 65536) % 256) as u8, ((addr / 256) % 256) as u8, (addr % 256) as u8],
    {
        Ipv4Address(u32_to_be(addr))
    }
}

/// IPv6 address (16 bytes).
#[derive(Debug, Clone, Copy, PartialEq, Eq, Hash)]
pub struct Ipv6Address(pub [u8; 16]);

impl Ipv6Address {
    /// Address with the given bytes.
    pub fn from_bytes(bytes: [u8; 16]) -> (r: Self)
        ensures
            r.0@ == bytes@,
    {
        Ipv6Address(bytes)
    }

    /// The sixteen bytes.
    pub fn as_bytes(&self) -> (r: &[u8; 16])
        ensures
            r@ == self.0@,
    {
        &self.0
    }

    /// ::1.
    pub fn loopback() -> (r: Self)
        ensures
            r.0@ == seq![0u8, 0, 0, 0, 0, 0, 0, 0, 0, 0, 0, 0, 0, 0, 0, 1],
    {
        let r = Ipv6Address([0u8, 0, 0, 0, 0, 0, 0, 0, 0, 0, 0, 0, 0, 0, 0, 1]);
        assert(r.0@ =~= seq![0u8, 0, 0, 0, 0, 0, 0, 0, 0, 0, 0, 0, 0, 0, 0, 1]);
        r
    }

    /// ::.
    pub fn unspecified() -> (r: Self)
        ensures
            r.0@ == seq![0u8, 0, 0, 0, 0, 0, 0, 0, 0, 0, 0, 0, 0, 0, 0, 0],
    {
        let r = Ipv6Address([0u8, 0, 0, 0, 0, 0, 0, 0, 0, 0, 0, 0, 0, 0, 0, 0]);
        assert(r.0@ =~= seq![0u8, 0, 0, 0, 0, 0, 0, 0, 0, 0, 0, 0, 0, 0, 0, 0]);
        r
    }
}

} // verus!
