use axis_core::net::link::arp::{create_reply, create_request, parse_arp_frame, ArpEntry, ArpEntryState, ArpHeader, ArpOp};
use axis_core::net::link::ethernet::{read_header_at, write_header_at, EthernetFrame, EthernetHeader};
use axis_core::net::types::{Ipv4Address, Ipv6Address, MacAddress};
use axis_core::error::KernelError;

#[test]
fn test_mac_address() {
    let mac = MacAddress::from_bytes([0x12, 0x34, 0x56, 0x78, 0x9A, 0xBC]);
    assert_eq!(mac.as_bytes(), &[0x12, 0x34, 0x56, 0x78, 0x9A, 0xBC]);
    assert!(!mac.is_broadcast());
    assert!(!mac.is_multicast());
    let bcast = MacAddress::broadcast();
    assert!(bcast.is_broadcast());
    let mcast = MacAddress::from_bytes([0x01, 0x00, 0x5E, 0x00, 0x00, 0x01]);
    assert!(mcast.is_multicast());
}

#[test]
fn test_ethernet_header() {
    let dest = MacAddress::from_bytes([0x00, 0x11, 0x22, 0x33, 0x44, 0x55]);
    let src = MacAddress::from_bytes([0xAA, 0xBB, 0xCC, 0xDD, 0xEE, 0xFF]);
    let header = EthernetHeader::new(dest, src, 0x0800);
    assert_eq!(header.dest_mac(), dest);
    assert_eq!(header.src_mac(), src);
    assert_eq!(header.ether_type(), 0x0800);
    let bytes = header.to_bytes();
    let parsed = EthernetHeader::from_bytes(&bytes).unwrap();
    assert_eq!(parsed.ether_type(), header.ether_type());
}

#[test]
fn ethernet_frame_roundtrip() {
    let mac1 = MacAddress::from_bytes([0x12, 0x34, 0x56, 0x78, 0x9A, 0xBC]);
    let header = EthernetHeader::new(mac1, MacAddress::broadcast(), 0x0800);
    let payload = b"Hello, Ethernet!".to_vec();
    let frame = EthernetFrame::new(header, payload.clone());
    assert_eq!(frame.len(), 14 + 16);
    assert!(!frame.is_empty());
    let bytes = frame.to_bytes();
    assert_eq!(&bytes[..6], &[0x12, 0x34, 0x56, 0x78, 0x9A, 0xBC]);
    assert_eq!(&bytes[12..14], &[0x08, 0x00]);
    let back = EthernetFrame::from_bytes(&bytes).unwrap();
    assert_eq!(back.payload, payload);
    assert_eq!(back.header.ether_type(), 0x0800);
    assert!(matches!(EthernetFrame::from_bytes(&bytes[..13]), Err(KernelError::InvalidArgument)));
}

#[test]
fn ethernet_write_and_read_at_offset() {
    let mut buf = [0xEEu8; 20];
    let d = MacAddress::from_bytes([1, 2, 3, 4, 5, 6]);
    let s = MacAddress::from_bytes([7, 8, 9, 10, 11, 12]);
    write_header_at(&mut buf, 3, d, s, 0x86DD).unwrap();
    assert_eq!(buf[0..3], [0xEE, 0xEE, 0xEE]);
    assert_eq!(buf[3..9], [1, 2, 3, 4, 5, 6]);
    assert_eq!(buf[15..17], [0x86, 0xDD]);
    assert_eq!(buf[17..20], [0xEE, 0xEE, 0xEE]);
    let h = read_header_at(&buf, 3).unwrap();
    assert_eq!(h.src_mac(), s);
    assert_eq!(h.ether_type(), 0x86DD);
    assert!(write_header_at(&mut buf, 7, d, s, 1).is_err());
    assert!(read_header_at(&buf, 7).is_err());
}

#[test]
fn ipv4_address_conversions() {
    let ip = Ipv4Address::from_parts(192, 168, 1, 1);
    assert_eq!(ip.as_bytes(), &[192, 168, 1, 1]);
    assert_eq!(ip.as_u32(), 0xC0A8_0101);
    assert_eq!(Ipv4Address::from_u32(0xC0A8_0101), ip);
    assert!(Ipv4Address::from_parts(224, 0, 0, 1).is_multicast());
    assert!(!Ipv4Address::loopback().is_multicast());
    assert_eq!(Ipv4Address::broadcast().as_u32(), u32::MAX);
    assert_eq!(Ipv4Address::zero().as_u32(), 0);
    assert_eq!(Ipv6Address::loopback().as_bytes()[15], 1);
    assert_eq!(Ipv6Address::unspecified().as_bytes(), &[0u8; 16]);
    assert_eq!(MacAddress::zero().as_bytes(), &[0u8; 6]);
}

#[test]
fn arp_request_reply_parse() {
    let sender_mac = MacAddress::from_bytes([0x00, 0x11, 0x22, 0x33, 0x44, 0x55]);
    let sender_ip = Ipv4Address::from_parts(192, 168, 1, 10);
    let target_ip = Ipv4Address::from_parts(192, 168, 1, 1);
    let request = create_request(sender_mac, sender_ip, target_ip);
    assert_eq!(request.payload.len(), 28);
    assert!(request.header.dest_mac().is_broadcast());
    assert_eq!(request.header.ether_type(), 0x0806);
    let target_mac = MacAddress::from_bytes([0xAA, 0xBB, 0xCC, 0xDD, 0xEE, 0xFF]);
    let reply = create_reply(target_mac, target_ip, sender_mac, sender_ip);
    assert_eq!(reply.payload.len(), 28);
    assert_eq!(reply.header.dest_mac(), sender_mac);
    let parsed = parse_arp_frame(&request).unwrap();
    assert_eq!(parsed.sender_ip(), sender_ip);
    assert_eq!(parsed.target_ip(), target_ip);
    assert_eq!(parsed.op().unwrap(), ArpOp::Request);
    assert_eq!(parsed.target_mac(), MacAddress::zero());
    let parsed_reply = parse_arp_frame(&reply).unwrap();
    assert_eq!(parsed_reply.op().unwrap(), ArpOp::Reply);
    assert_eq!(parsed_reply.sender_mac(), target_mac);
    let short = EthernetFrame::new(request.header, vec![0u8; 27]);
    assert!(parse_arp_frame(&short).is_err());
}

#[test]
fn arp_bad_op_and_expiry() {
    let mut h = ArpHeader::new(ArpOp::Request, MacAddress::zero(), Ipv4Address::zero(), MacAddress::zero(), Ipv4Address::zero());
    assert_eq!(h.to_bytes()[..8], [0, 1, 8, 0, 6, 4, 0, 1]);
    h.op = [0, 3];
    assert_eq!(h.op().unwrap_err(), KernelError::InvalidArgument);
    let mut e = ArpEntry::new(Ipv4Address::loopback(), MacAddress::zero());
    assert_eq!(e.state, ArpEntryState::Reachable);
    e.timestamp = 100;
    assert!(!e.is_expired(700, 600));
    assert!(e.is_expired(701, 600));
}
