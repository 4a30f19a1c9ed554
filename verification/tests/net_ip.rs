use axis_core::error::KernelError;
use axis_core::net::ip::icmp::{create_destination_unreachable, create_time_exceeded, echo_reply_for, handle_icmp, IcmpHeader, IcmpType};
use axis_core::net::ip::icmpv6::{handle_neighbor_solicitation, Icmpv6Header, Icmpv6Type, NeighborAdvertisement};
use axis_core::net::ip::ipv4::{self, Ipv4Header};
use axis_core::net::ip::routing::{RouteEntry, RoutingTable};
use axis_core::net::ip::{recv_packet, send_packet};
use axis_core::net::types::{Ipv4Address, Ipv6Address};

#[test]
fn ipv4_header_checksum_and_roundtrip() {
    let src = Ipv4Address::from_parts(192, 168, 1, 10);
    let dst = Ipv4Address::from_parts(8, 8, 8, 8);
    let header = Ipv4Header::new(src, dst, 6, 100);
    assert_eq!(header.version(), 4);
    assert_eq!(header.ihl(), 5);
    assert_eq!(header.header_length(), 20);
    assert_eq!(header.total_length(), 120);
    assert_eq!(header.payload_length(), 100);
    assert_eq!(header.ttl(), 64);
    assert_eq!(header.src_ip(), src);
    assert_eq!(header.dst_ip(), dst);
    assert_eq!(header.protocol(), 6);
    assert!(header.verify_checksum());
    let bytes = header.to_bytes();
    let parsed = Ipv4Header::from_bytes(&bytes).unwrap();
    assert_eq!(parsed.src_ip(), src);
    assert!(parsed.verify_checksum());
    // The checksum of a header with its checksum filled in folds to zero.
    assert_eq!(Ipv4Header::checksum(&bytes), [0, 0]);
    let mut bad = bytes;
    bad[8] ^= 1;
    assert!(!Ipv4Header::from_bytes(&bad).unwrap().verify_checksum());
}

#[test]
fn internet_checksum_known_value() {
    // RFC 1071 example words 0x0001 0xf203 0xf4f5 0xf6f7: sum 0x2ddf0, folded 0xddf2, complement 0x220d.
    let data = [0x00u8, 0x01, 0xf2, 0x03, 0xf4, 0xf5, 0xf6, 0xf7];
    assert_eq!(Ipv4Header::checksum(&data), [0x22, 0x0d]);
    assert_eq!(Ipv4Header::checksum(&[0xAB]), [0x54, 0xFF]);
    assert_eq!(IcmpHeader::compute_checksum(&[]), [0xFF, 0xFF]);
}

#[test]
fn ipv4_flags_and_errors() {
    let mut h = Ipv4Header::new(Ipv4Address::zero(), Ipv4Address::zero(), 17, 0);
    h.flags_fragment_offset = [0x40 | 0x20 | 0x01, 0x02];
    assert_eq!(h.flags(), 0x03);
    assert!(h.is_more_fragments());
    assert!(!h.is_dont_fragment());
    assert_eq!(h.fragment_offset(), 0x0102);
    assert_eq!(h.flags_fragment_offset(), 0x6102);
    assert!(Ipv4Header::from_bytes(&[0x45; 19]).is_err());
    let mut v6 = Ipv4Header::new(Ipv4Address::zero(), Ipv4Address::zero(), 17, 0).to_bytes();
    v6[0] = 0x65;
    assert_eq!(Ipv4Header::from_bytes(&v6).unwrap_err(), KernelError::InvalidArgument);
}

#[test]
fn ip_layer_dispatch() {
    assert_eq!(send_packet(&[1, 2, 3, 4], 17, &[0; 10]), Ok(10));
    assert_eq!(send_packet(&[0; 16], 17, &[0; 3]), Ok(3));
    assert_eq!(send_packet(&[0; 5], 17, &[0; 3]), Err(KernelError::InvalidArgument));
    assert_eq!(recv_packet(&[]), Err(KernelError::InvalidArgument));
    assert_eq!(recv_packet(&[0x70, 0, 0]), Err(KernelError::Unsupported));
    assert_eq!(recv_packet(&[0x60, 0, 0]), Ok(()));
    let good = Ipv4Header::new(Ipv4Address::loopback(), Ipv4Address::loopback(), 1, 0).to_bytes();
    assert_eq!(recv_packet(&good), Ok(()));
    let mut dead = Ipv4Header::new(Ipv4Address::loopback(), Ipv4Address::loopback(), 1, 0);
    dead.ttl = 0;
    dead.header_checksum = [0, 0];
    let c = Ipv4Header::checksum(&dead.to_bytes());
    dead.header_checksum = c;
    assert_eq!(ipv4::recv_packet(&dead.to_bytes()), Err(KernelError::Other("TTL expired")));
    let mut corrupt = good;
    corrupt[10] ^= 0xFF;
    assert_eq!(recv_packet(&corrupt), Err(KernelError::InvalidArgument));
}

#[test]
fn icmp_echo_headers() {
    let header = IcmpHeader::echo_request(1, 0x1234);
    assert_eq!(header.msg_type(), Some(IcmpType::EchoRequest));
    assert_eq!(header.sequence(), 1);
    assert_eq!(header.id(), 0x1234);
    let reply = IcmpHeader::echo_reply(1, 0x1234);
    assert_eq!(reply.msg_type(), Some(IcmpType::EchoReply));
    let bytes = header.to_bytes();
    let parsed = IcmpHeader::from_bytes(&bytes).unwrap();
    assert_eq!(parsed.sequence(), header.sequence());
    assert_eq!(IcmpType::from_u8(5), None);
    assert_eq!(IcmpType::from_u8(11), Some(IcmpType::TimeExceeded));
}

#[test]
fn icmp_echo_reply_built_and_checksummed() {
    let mut req = IcmpHeader::echo_request(7, 0xBEEF).to_bytes().to_vec();
    req.extend_from_slice(b"ping");
    let reply = echo_reply_for(&req).unwrap();
    assert_eq!(reply[0], 0);
    assert_eq!(&reply[4..8], &[0xBE, 0xEF, 0x00, 0x07]);
    assert_eq!(&reply[8..], b"ping");
    assert_eq!(IcmpHeader::compute_checksum(&reply), [0, 0]);
    assert!(echo_reply_for(&reply).is_none());
    let from = Ipv4Address::from_parts(10, 0, 0, 9);
    let out = handle_icmp(from, Ipv4Address::loopback(), &req).unwrap().unwrap();
    assert_eq!(out.dest, [10, 0, 0, 9]);
    assert_eq!(out.protocol, 1);
    assert_eq!(out.payload, reply);
    assert!(handle_icmp(from, Ipv4Address::loopback(), &reply).unwrap().is_none());
    assert!(matches!(handle_icmp(from, Ipv4Address::loopback(), &req[..7]), Err(KernelError::InvalidArgument)));
}

#[test]
fn icmp_error_messages() {
    let orig = [0x45u8; 40];
    let (h, pkt) = create_time_exceeded(&orig);
    assert_eq!(h.msg_type, 11);
    assert_eq!(pkt.len(), 8 + 28);
    assert_eq!(IcmpHeader::compute_checksum(&pkt), [0, 0]);
    let (h2, pkt2) = create_destination_unreachable(3, &orig[..10]);
    assert_eq!(h2.msg_type, 3);
    assert_eq!(h2.code, 3);
    assert_eq!(pkt2.len(), 18);
    assert_eq!(&pkt2[..8], &h2.to_bytes());
}

#[test]
fn icmpv6_headers_and_neighbors() {
    let header = Icmpv6Header::echo_request(1, 0x5678);
    assert_eq!(header.msg_type(), Some(Icmpv6Type::EchoRequest));
    assert_eq!(header.to_bytes()[0], 128);
    assert_eq!(header.sequence(), 1);
    assert_eq!(header.id(), 0x5678);
    assert_eq!(Icmpv6Header::echo_reply(1, 0x5678).msg_type(), Some(Icmpv6Type::EchoReply));
    let parsed = Icmpv6Header::from_bytes(&header.to_bytes()).unwrap();
    assert_eq!(parsed.id(), header.id());
    assert!(Icmpv6Type::from_u8(1).is_some());
    assert!(Icmpv6Type::from_u8(133).is_some());
    assert!(Icmpv6Type::from_u8(135).is_some());
    assert!(Icmpv6Type::from_u8(255).is_none());
    let target = Ipv6Address::loopback();
    let na = handle_neighbor_solicitation(Ipv6Address::unspecified(), target);
    assert!(!na.is_router());
    assert!(na.is_solicited());
    assert_eq!(na.flags_and_target[0], 0x60);
    assert_eq!(na.target_addr(), target);
    let r = NeighborAdvertisement::new(target, true, false, false);
    assert!(r.is_router());
    assert!(!r.is_solicited());
}

#[test]
fn routing_longest_prefix_wins() {
    let mut table = RoutingTable::new();
    let default_route = RouteEntry::new(Ipv4Address::from_parts(0, 0, 0, 0), 0, Ipv4Address::from_parts(192, 168, 1, 1), 100, 0);
    table.add_route(default_route).unwrap();
    let network_route = RouteEntry::new(Ipv4Address::from_parts(10, 0, 0, 0), 8, Ipv4Address::from_parts(192, 168, 1, 2), 10, 1);
    table.add_route(network_route).unwrap();
    let test_ip = Ipv4Address::from_parts(10, 1, 2, 3);
    assert_eq!(table.lookup(test_ip).expect("路由查询失败").prefix_len, 8);
    let other_ip = Ipv4Address::from_parts(8, 8, 8, 8);
    assert_eq!(table.lookup(other_ip).expect("默认路由查询失败").prefix_len, 0);
    assert_eq!(table.len(), 2);
    let host = RouteEntry::new(Ipv4Address::from_parts(10, 1, 2, 3), 32, Ipv4Address::zero(), 1, 2);
    table.add_route(host).unwrap();
    assert_eq!(table.lookup(test_ip).unwrap().prefix_len, 32);
    assert_eq!(table.lookup(Ipv4Address::from_parts(10, 1, 2, 4)).unwrap().prefix_len, 8);
    assert!(table.remove_route(Ipv4Address::from_parts(10, 0, 0, 0), 8).is_ok());
    assert_eq!(table.remove_route(Ipv4Address::from_parts(10, 0, 0, 0), 8), Err(KernelError::NotFound));
    assert_eq!(table.lookup(Ipv4Address::from_parts(10, 1, 2, 4)).unwrap().prefix_len, 0);
    table.clear();
    assert!(table.is_empty());
    assert!(table.lookup(test_ip).is_none());
}

#[test]
fn route_match_masks() {
    let r = RouteEntry::new(Ipv4Address::from_parts(172, 16, 0, 0), 12, Ipv4Address::zero(), 0, 0);
    assert!(r.matches(Ipv4Address::from_parts(172, 31, 255, 255)));
    assert!(!r.matches(Ipv4Address::from_parts(172, 32, 0, 0)));
}

#[test]
fn icmp_messages_checksum_to_zero() {
    let mut req = IcmpHeader::echo_request(1, 2).to_bytes().to_vec();
    req.extend_from_slice(b"odd");
    let reply = echo_reply_for(&req).unwrap();
    assert_eq!(IcmpHeader::compute_checksum(&reply), [0, 0]);
    let quoted = [0x45u8; 40];
    let (_, te) = create_time_exceeded(&quoted);
    assert_eq!(IcmpHeader::compute_checksum(&te), [0, 0]);
    let (_, du) = create_destination_unreachable(3, &quoted[..5]);
    assert_eq!(IcmpHeader::compute_checksum(&du), [0, 0]);
}
