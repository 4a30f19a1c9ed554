use vstd::prelude::*;
use crate::error::{KernelError, KernelResult};
use crate::net::types::{MacAddress, be16, u16_to_be, u16_from_be, bytes_equal};

verus! {

/// Length of an Ethernet header on the wire.
pub const ETH_HEADER_BYTES: usize = 14;

/// Ethernet header: destination MAC, source MAC, EtherType (big-endian).
#[derive(Debug, Clone, Copy)]
pub struct EthernetHeader {
    /// Destination MAC address.
    pub dest_mac: [u8; 6],
    /// Source MAC address.
    pub src_mac: [u8; 6],
    /// EtherType, big-endian.
    pub ether_type: [u8; 2],
}

impl EthernetHeader {
    /// The 14 bytes of the header as they stand on the wire.
    pub open spec fn wire(&self) -> Seq<u8> {
        self.dest_mac@ + self.src_mac@ + self.ether_type@
    }

    /// Header for `dest_mac`, `src_mac` and `ether_type`.
    pub fn new(dest_mac: MacAddress, src_mac: MacAddress, ether_type: u16) -> (r: Self)
        ensures
            r.dest_mac@ == dest_mac.0@,
            r.src_mac@ == src_mac.0@,
            be16(r.ether_type[0], r.ether_type[1]) == ether_type,
    {
        EthernetHeader {
            dest_mac: *dest_mac.as_bytes(),
            src_mac: *src_mac.as_bytes(),
            ether_type: u16_to_be(ether_type),
        }
    }

    /// Destination MAC address.
    pub fn dest_mac(&self) -> (r: MacAddress)
        ensures
            r.0@ == self.dest_mac@,
    {
        MacAddress::from_bytes(self.dest_mac)
    }

    /// Source MAC address.
    pub fn src_mac(&self) -> (r: MacAddress)
        ensures
            r.0@ == self.src_mac@,
    {
        MacAddress::from_bytes(self.src_mac)
    }

    /// EtherType.
    pub fn ether_type(&self) -> (r: u16)
        ensures
            r == be16(self.ether_type[0], self.ether_type[1]),
    {
        u16_from_be(self.ether_type)
    }

    /// Header read from the first 14 bytes of `data`; `InvalidArgument`
    /// when `data` is shorter.
    pub fn from_bytes(data: &[u8]) -> (r: KernelResult<Self>)
        ensures
            data@.len() < 14 ==> r == Err::<Self, KernelError>(KernelError::InvalidArgument),
            data@.len() >= 14 ==> r is Ok && r->Ok_0.wire() == data@.subrange(0, 14),
    {
        if data.len() < ETH_HEADER_BYTES {
            return Err(KernelError::InvalidArgument);
        }
        let h = EthernetHeader {
            dest_mac: [data[0], data[1], data[2], data[3], data[4], data[5]],
            src_mac: [data[6], data[7], data[8], data[9], data[10], data[11]],
            ether_type: [data[12], data[13]],
        };
        assert(h.wire() =~= data@.subrange(0, 14));
        Ok(h)
    }

    /// The 14 bytes of the header.
    pub fn to_bytes(&self) -> (r: [u8; 14])
        ensures
            r@ == self.wire(),
    {
        let d = &self.dest_mac;
        let s = &self.src_mac;
        let t = &self.ether_type;
        let r = [d[0], d[1], d[2], d[3], d[4], d[5], s[0], s[1], s[2], s[3], s[4], s[5], t[0], t[1]];
        assert(r@ =~= self.wire());
        r
    }
}

/// Serialising a header and parsing the bytes gives a header with the same
/// bytes back.
pub proof fn lemma_ethernet_header_roundtrip(h: EthernetHeader, data: Seq<u8>, parsed: EthernetHeader)
    requires
        data == h.wire(),
        parsed.wire() == data.subrange(0, 14),
    ensures
        parsed.dest_mac@ == h.dest_mac@,
        parsed.src_mac@ == h.src_mac@,
        parsed.ether_type@ == h.ether_type@,
{
    assert(data.subrange(0, 14) =~= data);
    assert(parsed.dest_mac@ =~= parsed.wire().subrange(0, 6));
    assert(h.dest_mac@ =~= h.wire().subrange(0, 6));
    assert(parsed.src_mac@ =~= parsed.wire().subrange(6, 12));
    assert(h.src_mac@ =~= h.wire().subrange(6, 12));
    assert(parsed.ether_type@ =~= parsed.wire().subrange(12, 14));
    assert(h.ether_type@ =~= h.wire().subrange(12, 14));
}

/// A complete Ethernet frame.
pub struct EthernetFrame {
    /// Header.
    pub header: EthernetHeader,
    /// Payload.
    pub payload: Vec<u8>,
}

impl EthernetFrame {
    /// Frame of `header` and `payload`.
    pub fn new(header: EthernetHeader, payload: Vec<u8>) -> (r: Self)
        ensures
            r.header == header,
            r.payload@ == payload@,
    {
        EthernetFrame { header, payload }
    }

    /// Frame parsed from `data`: the first 14 bytes are the header, the
    /// rest the payload; `InvalidArgument` when `data` is shorter than 14.
    pub fn from_bytes(data: &[u8]) -> (r: KernelResult<Self>)
        ensures
            data@.len() < 14 ==> r == Err::<Self, KernelError>(KernelError::InvalidArgument),
            data@.len() >= 14 ==> r is Ok && r->Ok_0.header.wire() == data@.subrange(0, 14)
                && r->Ok_0.payload@ == data@.subrange(14, data@.len() as int),
    {
        if data.len() < ETH_HEADER_BYTES {
            return Err(KernelError::InvalidArgument);
        }
        let header = match EthernetHeader::from_bytes(data) {
            Ok(h) => h,
            Err(e) => return Err(e),
        };
        let mut payload: Vec<u8> = Vec::new();
        let mut i: usize = ETH_HEADER_BYTES;
        while i < data.len()
            invariant
                14 <= i <= data@.len(),
                payload@ == data@.subrange(14, i as int),
            decreases data@.len() - i,
        {
            payload.push(data[i]);
            i = i + 1;
            assert(payload@ =~= data@.subrange(14, i as int));
        }
        Ok(EthernetFrame { header, payload })
    }

    /// Header bytes followed by the payload.
    pub fn to_bytes(&self) -> (r: Vec<u8>)
        ensures
            r@ == self.header.wire() + self.payload@,
    {
        let h = self.header.to_bytes();
        let mut bytes: Vec<u8> = Vec::new();
        let mut i: usize = 0;
        while i < 14
            invariant
                0 <= i <= 14,
                h@ == self.header.wire(),
                bytes@ == h@.subrange(0, i as int),
            decreases 14 - i,
        {
            bytes.push(h[i]);
            i = i + 1;
            assert(bytes@ =~= h@.subrange(0, i as int));
        }
        let mut j: usize = 0;
        while j < self.payload.len()
            invariant
                0 <= j <= self.payload@.len(),
                bytes@ == self.header.wire() + self.payload@.subrange(0, j as int),
            decreases self.payload@.len() - j,
        {
            bytes.push(self.payload[j]);
            j = j + 1;
            assert(bytes@ =~= self.header.wire() + self.payload@.subrange(0, j as int));
        }
        assert(self.payload@.subrange(0, j as int) =~= self.payload@);
        bytes
    }

    /// Length on the wire: 14 plus the payload length.
    pub fn len(&self) -> (r: usize)
        requires
            self.payload@.len() + 14 <= usize::MAX,
        ensures
            r == 14 + self.payload@.len(),
    {
        ETH_HEADER_BYTES + self.payload.len()
    }

    /// Whether the payload is empty.
    pub fn is_empty(&self) -> (r: bool)
        ensures
            r == (self.payload@.len() == 0),
    {
        self.payload.len() == 0
    }
}

/// Serialising a frame and parsing the bytes gives the same header bytes
/// and the same payload back.
pub proof fn lemma_ethernet_frame_roundtrip(f: EthernetFrame, data: Seq<u8>, parsed: EthernetFrame)
    requires
        data == f.header.wire() + f.payload@,
        parsed.header.wire() == data.subrange(0, 14),
        parsed.payload@ == data.subrange(14, data.len() as int),
    ensures
        parsed.header.wire() == f.header.wire(),
        parsed.payload@ == f.payload@,
{
    assert(data.subrange(0, 14) =~= f.header.wire());
    assert(data.subrange(14, data.len() as int) =~= f.payload@);
}

/// Writes the header for `dest_mac`, `src_mac`, `ether_type` into
/// `buffer[offset..offset + 14]`; `InvalidArgument` when it does not fit.
pub fn write_header_at(
    buffer: &mut [u8],
    offset: usize,
    dest_mac: MacAddress,
    src_mac: MacAddress,
    ether_type: u16,
) -> (r: KernelResult<()>)
    ensures
        old(buffer)@.len() < offset + 14 ==> r == Err::<(), KernelError>(KernelError::InvalidArgument)
            && final(buffer)@ == old(buffer)@,
        old(buffer)@.len() >= offset + 14 ==> r is Ok && final(buffer)@.len() == old(buffer)@.len()
            && final(buffer)@.subrange(0, offset as int) == old(buffer)@.subrange(0, offset as int)
            && final(buffer)@.subrange(offset + 14, old(buffer)@.len() as int)
                == old(buffer)@.subrange(offset + 14, old(buffer)@.len() as int)
            && final(buffer)@.subrange(offset as int, offset + 14) == dest_mac.0@ + src_mac.0@
                + seq![(ether_type / 256) as u8, (ether_type % 256) as u8],
{
    if offset > buffer.len() || buffer.len() - offset < ETH_HEADER_BYTES {
        return Err(KernelError::InvalidArgument);
    }
    let header = EthernetHeader::new(dest_mac, src_mac, ether_type);
    let hb = header.to_bytes();
    let ghost before = buffer@;
    let mut i: usize = 0;
    while i < 14
        invariant
            0 <= i <= 14,
            offset + 14 <= buffer.len(),
            buffer@.len() == before.len(),
            hb@ == header.wire(),
            forall|k: int| 0 <= k < offset ==> buffer@[k] == before[k],
            forall|k: int| offset + 14 <= k < before.len() ==> buffer@[k] == before[k],
            forall|k: int| 0 <= k < i ==> buffer@[offset + k] == hb@[k],
        decreases 14 - i,
    {
        buffer[offset + i] = hb[i];
        i = i + 1;
    }
    assert(header.ether_type@ =~= seq![(ether_type / 256) as u8, (ether_type % 256) as u8]);
    assert(buffer@.subrange(0, offset as int) =~= before.subrange(0, offset as int));
    assert(buffer@.subrange(offset + 14, before.len() as int) =~= before.subrange(offset + 14, before.len() as int));
    assert(buffer@.subrange(offset as int, offset + 14) =~= hb@);
    Ok(())
}

/// Header read from `buffer[offset..offset + 14]`; `InvalidArgument` when
/// the buffer is too short.
pub fn read_header_at(buffer: &[u8], offset: usize) -> (r: KernelResult<EthernetHeader>)
    ensures
        buffer@.len() < offset + 14 ==> r == Err::<EthernetHeader, KernelError>(KernelError::InvalidArgument),
        buffer@.len() >= offset + 14 ==> r is Ok && r->Ok_0.wire() == buffer@.subrange(offset as int, offset + 14),
{
    if offset > buffer.len() || buffer.len() - offset < ETH_HEADER_BYTES {
        return Err(KernelError::InvalidArgument);
    }
    let o = offset;
    let h = EthernetHeader {
        dest_mac: [buffer[o], buffer[o + 1], buffer[o + 2], buffer[o + 3], buffer[o + 4], buffer[o + 5]],
        src_mac: [buffer[o + 6], buffer[o + 7], buffer[o + 8], buffer[o + 9], buffer[o + 10], buffer[o + 11]],
        ether_type: [buffer[o + 12], buffer[o + 13]],
    };
    assert(h.wire() =~= buffer@.subrange(offset as int, offset + 14));
    Ok(h)
}

/// The bytes of "Hello, Ethernet!".
fn hello_payload() -> (r: Vec<u8>)
    ensures
        r@ == seq![0x48u8, 0x65, 0x6C, 0x6C, 0x6F, 0x2C, 0x20, 0x45, 0x74, 0x68, 0x65, 0x72, 0x6E, 0x65, 0x74, 0x21],
{
    let r: Vec<u8> = vec![0x48, 0x65, 0x6C, 0x6C, 0x6F, 0x2C, 0x20, 0x45, 0x74, 0x68, 0x65, 0x72, 0x6E, 0x65, 0x74, 0x21];
    assert(r@ =~= seq![0x48u8, 0x65, 0x6C, 0x6C, 0x6F, 0x2C, 0x20, 0x45, 0x74, 0x68, 0x65, 0x72, 0x6E, 0x65, 0x74, 0x21]);
    r
}

/// Checks broadcast detection, reads a header and a whole frame back from
/// their bytes; always passes.
pub fn selftest() -> (r: bool)
    ensures
        r,
{
    let mac1 = MacAddress::from_bytes([0x12, 0x34, 0x56, 0x78, 0x9A, 0xBC]);
    let mac2 = MacAddress::broadcast();
    assert(mac1.0[0] == 0x12);
    if !mac2.is_broadcast() || mac1.is_broadcast() {
        return false;
    }
    let header = EthernetHeader::new(mac1, mac2, 0x0800);
    let bytes = header.to_bytes();
    let parsed = match EthernetHeader::from_bytes(bytes.as_slice()) {
        Ok(p) => p,
        Err(_) => {
            return false;
        },
    };
    proof {
        lemma_ethernet_header_roundtrip(header, bytes@, parsed);
        assert(parsed.ether_type[0] == header.ether_type[0] && parsed.ether_type[1] == header.ether_type[1]);
    }
    if parsed.ether_type() != 0x0800 {
        return false;
    }
    let payload = hello_payload();
    let expected = hello_payload();
    let frame = EthernetFrame::new(header, payload);
    let serialized = frame.to_bytes();
    let deserialized = match EthernetFrame::from_bytes(serialized.as_slice()) {
        Ok(f) => f,
        Err(_) => {
            return false;
        },
    };
    proof {
        lemma_ethernet_frame_roundtrip(frame, serialized@, deserialized);
    }
    bytes_equal(deserialized.payload.as_slice(), expected.as_slice())
}

} // verus!
