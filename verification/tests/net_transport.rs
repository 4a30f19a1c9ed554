use axis_core::error::KernelError;
use axis_core::net::config::TcpState;
use axis_core::net::interface::{find_outgoing_interface, get_default_ipv4_addr, get_interface_mac, init_interfaces, Ipv4InterfaceConfig, NetworkInterface};
use axis_core::net::io_uring::{CqEntry, IoUring, SqEntry, OP_NOP};
use axis_core::net::transport::socket::{AddressFamily, SocketAddr, SocketState, SocketTable, SocketType};
use axis_core::net::transport::tcp::{create_ack, create_fin, create_syn, create_synack, TcpConnection, TcpHeader};
use axis_core::net::transport::udp::{self, UdpHeader, UdpSocket};
use axis_core::net::transport::{recv_data, send_data};
use axis_core::net::types::{Ipv4Address, MacAddress};

#[test]
fn udp_header_roundtrip() {
    let header = UdpHeader::new(12345, 80, 10);
    assert_eq!(header.src_port(), 12345);
    assert_eq!(header.dst_port(), 80);
    assert_eq!(header.length(), 18);
    let parsed = UdpHeader::from_bytes(&header.to_bytes()).unwrap();
    assert_eq!(parsed.src_port(), header.src_port());
    assert_eq!(parsed.dst_port(), header.dst_port());
    let socket = UdpSocket::new([192, 168, 1, 10], 5353);
    assert_eq!(socket.local_port, 5353);
    assert!(socket.recv_buffer.is_empty());
}

#[test]
fn udp_send_recv_checks() {
    assert_eq!(udp::send_packet(1, 2, &[0; 7]), Ok(7));
    let mut pkt = UdpHeader::new(1, 2, 4).to_bytes().to_vec();
    assert_eq!(udp::recv_packet(&pkt), Err(KernelError::InvalidArgument));
    pkt.extend_from_slice(&[1, 2, 3, 4]);
    assert_eq!(udp::recv_packet(&pkt), Ok(()));
    assert_eq!(udp::recv_packet(&pkt[..5]), Err(KernelError::InvalidArgument));
}

#[test]
fn tcp_headers() {
    let header = TcpHeader::new(12345, 80, 1000, 0x02);
    assert_eq!(header.src_port(), 12345);
    assert_eq!(header.dst_port(), 80);
    assert_eq!(header.seq_num(), 1000);
    assert!(header.has_syn());
    assert!(!header.has_ack());
    assert_eq!(header.data_offset(), 5);
    assert_eq!(header.header_length(), 20);
    assert_eq!(header.window(), 0xFFFF);
    let synack = create_synack(80, 12345, 2000, 1001);
    assert!(synack.has_syn());
    assert!(synack.has_ack());
    assert_eq!(synack.ack_num(), 1001);
    let parsed = TcpHeader::from_bytes(&header.to_bytes()).unwrap();
    assert_eq!(parsed.src_port(), header.src_port());
    assert!(create_fin(1, 2, 3).has_fin());
    assert!(!create_fin(1, 2, 3).has_rst());
    assert_eq!(create_ack(1, 2, 3, 4).ack_num(), 4);
    assert_eq!(create_syn(1, 2, 3).ack_num(), 0);
    let conn = TcpConnection::new([192, 168, 1, 10], [8, 8, 8, 8], 12345, 80);
    assert_eq!(conn.state, TcpState::Closed);
    assert_eq!(conn.tuple(), ([192, 168, 1, 10], 12345, [8, 8, 8, 8], 80));
    assert_eq!(TcpState::Established.name(), "ESTABLISHED");
}

#[test]
fn transport_dispatch() {
    assert_eq!(send_data(17, [0; 4], 1, [0; 4], 2, &[0; 9]), Ok(9));
    assert_eq!(send_data(6, [0; 4], 1, [0; 4], 2, &[0; 9]), Ok(9));
    assert_eq!(send_data(1, [0; 4], 1, [0; 4], 2, &[0; 9]), Err(KernelError::Unsupported));
    assert_eq!(recv_data(6, [0; 4], 1, 2, &[0; 19]), Err(KernelError::InvalidArgument));
    assert_eq!(recv_data(6, [0; 4], 1, 2, &[0; 20]), Ok(()));
    assert_eq!(recv_data(99, [0; 4], 1, 2, &[0; 20]), Err(KernelError::Unsupported));
}

#[test]
fn socket_table_lifecycle() {
    let mut table = SocketTable::new();
    let fd = table.socket(AddressFamily::Inet, SocketType::Stream).expect("创建 Socket 失败");
    assert_eq!(fd, 3);
    let socket = table.get_mut(fd).expect("获取 Socket 失败");
    let addr = SocketAddr::new([127, 0, 0, 1], 8080);
    socket.bind(addr).expect("绑定失败");
    assert_eq!(socket.state, SocketState::Bound);
    assert!(socket.bind(addr).is_err());
    socket.listen(5).expect("监听失败");
    assert_eq!(socket.state, SocketState::Listening);
    assert_eq!(table.len(), 1);
    let fd2 = table.socket(AddressFamily::Inet, SocketType::Dgram).unwrap();
    assert_eq!(fd2, 4);
    assert!(table.get_mut(fd2).unwrap().listen(1).is_err());
    assert!(table.get_mut(fd2).unwrap().connect(SocketAddr::loopback(1)).is_err());
    assert_eq!(table.get_mut(fd2).unwrap().send(&[1, 2, 3]), Ok(3));
    assert_eq!(table.close(fd), Ok(()));
    assert_eq!(table.close(fd), Err(KernelError::NotFound));
    assert!(table.get(fd).is_err());
    assert_eq!(table.get(fd2).unwrap().fd, 4);
    assert_eq!(table.len(), 1);
}

#[test]
fn socket_recv_drains_front() {
    let mut table = SocketTable::new();
    let fd = table.socket(AddressFamily::Inet, SocketType::Stream).unwrap();
    let s = table.get_mut(fd).unwrap();
    assert!(s.send(&[1]).is_err());
    s.recv_buffer = vec![1, 2, 3, 4, 5];
    let mut buf = [0u8; 3];
    assert_eq!(s.recv(&mut buf), Ok(3));
    assert_eq!(buf, [1, 2, 3]);
    assert_eq!(s.recv_buffer, vec![4, 5]);
    let mut big = [9u8; 4];
    assert_eq!(s.recv(&mut big), Ok(2));
    assert_eq!(big, [4, 5, 9, 9]);
    assert_eq!(s.recv(&mut big), Ok(0));
    assert_eq!(SocketAddr::any(7).addr, [0, 0, 0, 0]);
    s.connect(SocketAddr::loopback(80)).unwrap();
    assert_eq!(s.state, SocketState::Connecting);
    s.close().unwrap();
    assert_eq!(s.state, SocketState::Closed);
}

#[test]
fn interfaces_and_routes() {
    let mut ifaces: Vec<NetworkInterface> = Vec::new();
    assert_eq!(get_default_ipv4_addr(&ifaces), None);
    init_interfaces(&mut ifaces, [0x52, 0x54, 0, 0x12, 0x34, 0x56]).unwrap();
    assert_eq!(ifaces[0].name, "vnic0");
    assert_eq!(get_default_ipv4_addr(&ifaces), Some(Ipv4Address::from_parts(192, 168, 1, 10)));
    assert_eq!(find_outgoing_interface(&ifaces, Ipv4Address::from_parts(192, 168, 1, 77)), Some((0, Ipv4Address::from_parts(192, 168, 1, 77))));
    assert_eq!(find_outgoing_interface(&ifaces, Ipv4Address::from_parts(8, 8, 8, 8)), Some((0, Ipv4Address::from_parts(192, 168, 1, 1))));
    assert_eq!(get_interface_mac(&ifaces, 0), Some(MacAddress::from_bytes([0x52, 0x54, 0, 0x12, 0x34, 0x56])));
    assert_eq!(get_interface_mac(&ifaces, 1), None);
    let cfg = Ipv4InterfaceConfig::new(Ipv4Address::from_parts(10, 1, 2, 3), 20, Ipv4Address::zero());
    assert_eq!(cfg.netmask(), Ipv4Address::from_parts(255, 255, 240, 0));
    assert_eq!(cfg.network_addr(), Ipv4Address::from_parts(10, 1, 0, 0));
    assert_eq!(cfg.broadcast_addr(), Ipv4Address::from_parts(10, 1, 15, 255));
    assert!(cfg.is_on_same_subnet(Ipv4Address::from_parts(10, 1, 15, 1)));
    assert!(!cfg.is_on_same_subnet(Ipv4Address::from_parts(10, 1, 16, 1)));
    let mut iface = NetworkInterface::new(String::from("eth1"), MacAddress::zero());
    assert_eq!(iface.ipv4_addr(), None);
    iface.set_ipv4(cfg);
    assert_eq!(iface.ipv4_addr(), Some(Ipv4Address::from_parts(10, 1, 2, 3)));
}

#[test]
fn io_uring_queues_are_fifo() {
    assert!(IoUring::new(0).is_err());
    assert!(IoUring::new(3).is_err());
    assert!(IoUring::new(8192).is_err());
    let mut uring = IoUring::new(2).unwrap();
    let mut sqe = SqEntry::new(OP_NOP, -1);
    sqe.user_data = 42;
    uring.submit(sqe.clone()).unwrap();
    let mut sqe2 = SqEntry::new(OP_NOP, 3);
    sqe2.user_data = 43;
    uring.submit(sqe2).unwrap();
    assert_eq!(uring.submit(SqEntry::new(OP_NOP, 0)).unwrap_err(), KernelError::Other("SQ full"));
    assert_eq!(uring.stats(), (2, 0));
    assert_eq!(uring.next_sqe().unwrap().user_data, 42);
    assert_eq!(uring.next_sqe().unwrap().user_data, 43);
    assert!(uring.next_sqe().is_none());
    for i in 0..4 {
        uring.submit_cqe(CqEntry::new(i, 0)).unwrap();
    }
    assert_eq!(uring.submit_cqe(CqEntry::new(9, 0)).unwrap_err(), KernelError::Other("CQ full"));
    assert_eq!(uring.peek_cqe().unwrap().user_data, 0);
    assert_eq!(uring.stats(), (0, 3));
}

#[test]
fn test_net_selftests_pass() {
    assert!(axis_core::net::link::ethernet::selftest());
    assert!(axis_core::net::link::arp::selftest());
    assert!(axis_core::net::ip::ipv4::selftest());
    assert!(axis_core::net::ip::ipv6::selftest());
    assert!(axis_core::net::ip::icmp::selftest());
    assert!(axis_core::net::ip::icmpv6::selftest());
    assert!(axis_core::net::ip::fragment::selftest());
    assert!(axis_core::net::ip::routing::selftest());
    assert!(axis_core::net::ip::selftest());
    assert!(axis_core::net::transport::socket::selftest());
    assert!(axis_core::net::transport::udp::selftest());
    assert!(axis_core::net::transport::tcp::selftest());
    assert!(axis_core::net::transport::selftest());
    assert!(axis_core::net::io_uring::selftest());
}
