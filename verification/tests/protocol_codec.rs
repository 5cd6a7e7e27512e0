use omnistack::codec::{
    read_eth_header, read_ipv4_header, read_udp_header, write_eth_header, write_ipv4_header,
    write_udp_header,
};
use omnistack::protocol::{
    parse_ipv4, select_route, swap16, EthHeader, EtherType, Ipv4Addr, Ipv4Header, Ipv4ProtoType,
    MacAddr, ParseIpv4Error, Route, UdpHeader,
};

#[test]
fn swap16_converts_byte_order() {
    assert_eq!(swap16(0x0800), 0x0008);
    assert_eq!(swap16(0x0008), 0x0800);
    assert_eq!(swap16(swap16(0x1234)), 0x1234);
}

#[test]
fn ipv4_text_parses_to_octets() {
    let a = parse_ipv4("192.168.10.1").unwrap();
    assert_eq!(a.octets(), [192, 168, 10, 1]);
    assert_eq!(a.to_u32_le(), 0xC0A80A01);
    assert_eq!(a.to_bits(), 0xC0A80A01);
    assert_eq!(a.to_u32_be(), u32::from_le_bytes([192, 168, 10, 1]));
    assert!(matches!(parse_ipv4("300.1.2.3"), Err(ParseIpv4Error::InvalidAddress)));
    assert!(matches!(parse_ipv4("1.2.3"), Err(ParseIpv4Error::InvalidAddress)));
    assert!(matches!(parse_ipv4("1.2.3.4.5"), Err(ParseIpv4Error::InvalidAddress)));
    assert!(matches!(parse_ipv4("a.b.c.d"), Err(ParseIpv4Error::InvalidAddress)));
}

#[test]
fn version_ihl_nibbles_round_trip() {
    let mut h = Ipv4Header::zeroed(Ipv4ProtoType::UDP);
    h.set_version(4);
    h.set_ihl(5);
    assert_eq!(h.version(), 4);
    assert_eq!(h.ihl(), 5);
    assert_eq!(h.version_ihl, 0x45);
}

#[test]
fn header_encode_then_decode_is_identity() {
    let mut buf = vec![0u8; 64];
    let eth = EthHeader {
        dst: MacAddr::from_bytes([2, 0, 0, 0, 0, 0]),
        src: MacAddr::from_bytes([2, 1, 9, 9, 0, 0]),
        ether_ty: EtherType::Ipv4,
    };
    write_eth_header(&mut buf, 3, &eth);
    let back = read_eth_header(&buf, 3).unwrap();
    assert_eq!(back.dst.as_bytes(), eth.dst.as_bytes());
    assert_eq!(back.src.as_bytes(), eth.src.as_bytes());
    assert_eq!(back.ether_ty, EtherType::Ipv4);

    let mut ip = Ipv4Header::zeroed(Ipv4ProtoType::UDP);
    ip.set_version(4);
    ip.set_ihl(5);
    ip.tot_len = swap16(1228);
    ip.ttl = 255;
    ip.src = u32::from_le_bytes([192, 168, 10, 1]);
    ip.dst = u32::from_le_bytes([192, 168, 10, 2]);
    write_ipv4_header(&mut buf, 17, &ip);
    let back = read_ipv4_header(&buf, 17).unwrap();
    assert_eq!(back.version(), 4);
    assert_eq!(back.ihl(), 5);
    assert_eq!(swap16(back.tot_len), 1228);
    assert_eq!(back.src, ip.src);
    assert_eq!(back.dst, ip.dst);
    assert_eq!(back.protocol, Ipv4ProtoType::UDP);

    let udp = UdpHeader { src: swap16(80), dst: swap16(81), len: swap16(1208), chksum: 0 };
    write_udp_header(&mut buf, 37, &udp);
    let back = read_udp_header(&buf, 37);
    assert_eq!(swap16(back.src), 80);
    assert_eq!(swap16(back.dst), 81);
    assert_eq!(swap16(back.len), 1208);
}

#[test]
fn longest_prefix_route_wins() {
    let routes = vec![
        Route::new(parse_ipv4("10.0.0.0").unwrap(), 8, 0),
        Route::new(parse_ipv4("10.1.0.0").unwrap(), 16, 1),
    ];
    let dst = parse_ipv4("10.1.2.3").unwrap().to_u32_be();
    let idx = select_route(&routes, dst).expect("a route matches");
    assert_eq!(routes[idx].nic, 1);

    let other = parse_ipv4("10.9.9.9").unwrap().to_u32_be();
    let idx = select_route(&routes, other).expect("the /8 still matches");
    assert_eq!(routes[idx].nic, 0);

    let none = parse_ipv4("11.0.0.1").unwrap().to_u32_be();
    assert!(select_route(&routes, none).is_none());
}

#[test]
fn route_matches_is_prefix_equality() {
    let r = Route::new(parse_ipv4("192.168.10.0").unwrap(), 24, 0);
    assert!(r.matches(parse_ipv4("192.168.10.77").unwrap().to_u32_be()));
    assert!(!r.matches(parse_ipv4("192.168.11.77").unwrap().to_u32_be()));
}
