use futures_dns::{
    lookup_string, Endpoint, EndpointError, IpAddr, Ipv4Addr, Ipv6Addr, SocketAddr, ToEndpoint,
};

#[test]
fn test_endpoint_str_port() {
    let ep = "0.0.0.0:1227".to_endpoint().unwrap();
    match ep {
        Endpoint::SocketAddr(addr) => {
            assert_eq!(addr.ip(), IpAddr::V4(Ipv4Addr::new(0, 0, 0, 0)));
            assert_eq!(addr.port(), 1227);
        }
        _ => panic!(),
    }
}

#[test]
fn test_endpoint_str() {
    let ep = "localhost:1227".to_endpoint().unwrap();
    match ep {
        Endpoint::Host(host, port) => {
            assert_eq!(host, "localhost");
            assert_eq!(port, 1227);
        }
        _ => panic!(),
    }
}

#[test]
fn socket_addr_round_trip() {
    let sa = SocketAddr::new(IpAddr::V4(Ipv4Addr::new(192, 168, 0, 1)), 8080);
    assert_eq!(sa.to_endpoint().unwrap(), Endpoint::SocketAddr(sa));
    assert_eq!((&sa).to_endpoint().unwrap(), Endpoint::SocketAddr(sa));
}

#[test]
fn pair_conversion_succeeds() {
    let ip = IpAddr::V4(Ipv4Addr::new(10, 0, 0, 1));
    let ep = (ip, 53).to_endpoint().unwrap();
    assert_eq!(ep, Endpoint::SocketAddr(SocketAddr::new(ip, 53)));
}

#[test]
fn str_pair_ip_literal() {
    let ep = ("127.0.0.1", 80).to_endpoint().unwrap();
    assert_eq!(
        ep,
        Endpoint::SocketAddr(SocketAddr::new(IpAddr::V4(Ipv4Addr::new(127, 0, 0, 1)), 80))
    );
}

#[test]
fn str_pair_host_name() {
    let ep = ("example.com", 80).to_endpoint().unwrap();
    assert_eq!(ep, Endpoint::Host("example.com".to_string(), 80));
}

#[test]
fn str_pair_ipv6_literal() {
    let loopback = Ipv6Addr { g0: 0, g1: 0, g2: 0, g3: 0, g4: 0, g5: 0, g6: 0, g7: 1 };
    let ep = ("::1", 443).to_endpoint().unwrap();
    assert_eq!(ep, Endpoint::SocketAddr(SocketAddr::new(IpAddr::V6(loopback), 443)));
}

#[test]
fn no_colon_is_invalid_endpoint() {
    assert_eq!("nocolon".to_endpoint(), Err(EndpointError::InvalidEndpoint));
    assert_eq!("".to_endpoint(), Err(EndpointError::InvalidEndpoint));
}

#[test]
fn bad_port_is_invalid_port() {
    assert_eq!("host:abc".to_endpoint(), Err(EndpointError::InvalidPort));
    assert_eq!("host:99999".to_endpoint(), Err(EndpointError::InvalidPort));
    assert_eq!("host:".to_endpoint(), Err(EndpointError::InvalidPort));
    assert_eq!("host:65536".to_endpoint(), Err(EndpointError::InvalidPort));
    assert_eq!("host:8 0".to_endpoint(), Err(EndpointError::InvalidPort));
}

#[test]
fn port_bounds_and_sign() {
    let ep = "host:65535".to_endpoint().unwrap();
    assert_eq!(ep, Endpoint::Host("host".to_string(), 65535));
    // the usual unsigned-integer grammar admits a leading plus sign
    let ep = "host:+80".to_endpoint().unwrap();
    assert_eq!(ep, Endpoint::Host("host".to_string(), 80));
    let ep = "host:000080".to_endpoint().unwrap();
    assert_eq!(ep, Endpoint::Host("host".to_string(), 80));
}

#[test]
fn split_is_at_last_colon() {
    let ep = "a:b:80".to_endpoint().unwrap();
    assert_eq!(ep, Endpoint::Host("a:b".to_string(), 80));
    let loopback = Ipv6Addr { g0: 0, g1: 0, g2: 0, g3: 0, g4: 0, g5: 0, g6: 0, g7: 1 };
    let ep = "::1:80".to_endpoint().unwrap();
    assert_eq!(ep, Endpoint::SocketAddr(SocketAddr::new(IpAddr::V6(loopback), 80)));
}

#[test]
fn empty_host_segment_is_invalid_endpoint() {
    assert_eq!(":80".to_endpoint(), Err(EndpointError::InvalidEndpoint));
    // the port segment is judged first, as for any other string
    assert_eq!(":abc".to_endpoint(), Err(EndpointError::InvalidPort));
    assert_eq!(":".to_endpoint(), Err(EndpointError::InvalidPort));
}

#[test]
fn pair_form_wraps_the_name_as_given() {
    // the pair conversions never fail: the name passes through
    // unchanged, and keeping it nonempty is the caller's charge
    let ep = ("", 80).to_endpoint().unwrap();
    assert_eq!(ep, Endpoint::Host("".to_string(), 80));
}

#[test]
fn ipv4_literal_is_strict() {
    assert_eq!(
        ("01.2.3.4", 1).to_endpoint().unwrap(),
        Endpoint::Host("01.2.3.4".to_string(), 1)
    );
    assert_eq!(
        ("256.1.1.1", 1).to_endpoint().unwrap(),
        Endpoint::Host("256.1.1.1".to_string(), 1)
    );
    assert_eq!(("1.2.3", 1).to_endpoint().unwrap(), Endpoint::Host("1.2.3".to_string(), 1));
    assert_eq!(
        ("1.2.3.4.5", 1).to_endpoint().unwrap(),
        Endpoint::Host("1.2.3.4.5".to_string(), 1)
    );
    assert_eq!(("1.2.3.x", 1).to_endpoint().unwrap(), Endpoint::Host("1.2.3.x".to_string(), 1));
}

#[test]
fn ipv6_literal_forms() {
    let full = Ipv6Addr { g0: 1, g1: 2, g2: 3, g3: 4, g4: 5, g5: 6, g6: 7, g7: 8 };
    assert_eq!(
        ("1:2:3:4:5:6:7:8", 1).to_endpoint().unwrap(),
        Endpoint::SocketAddr(SocketAddr::new(IpAddr::V6(full), 1))
    );
    let zero = Ipv6Addr { g0: 0, g1: 0, g2: 0, g3: 0, g4: 0, g5: 0, g6: 0, g7: 0 };
    assert_eq!(
        ("::", 1).to_endpoint().unwrap(),
        Endpoint::SocketAddr(SocketAddr::new(IpAddr::V6(zero), 1))
    );
    let mapped = Ipv6Addr { g0: 0, g1: 0, g2: 0, g3: 0, g4: 0, g5: 0xffff, g6: 0x0102, g7: 0x0304 };
    assert_eq!(
        ("::ffff:1.2.3.4", 1).to_endpoint().unwrap(),
        Endpoint::SocketAddr(SocketAddr::new(IpAddr::V6(mapped), 1))
    );
    let trailing = Ipv6Addr { g0: 1, g1: 2, g2: 3, g3: 4, g4: 5, g5: 6, g6: 7, g7: 0 };
    assert_eq!(
        ("1:2:3:4:5:6:7::", 1).to_endpoint().unwrap(),
        Endpoint::SocketAddr(SocketAddr::new(IpAddr::V6(trailing), 1))
    );
}

#[test]
fn ipv6_literal_rejects_malformed() {
    for bad in [":::", "1::2::3", "1:2:3:4:5:6:7:8:9", "1:2:3:4:5:6:7", ":1:2:3:4:5:6:7", "1:", "12345::"] {
        assert_eq!(
            (bad, 1).to_endpoint().unwrap(),
            Endpoint::Host(bad.to_string(), 1),
            "expected {bad:?} to stay a host name"
        );
    }
}

#[test]
fn lookup_string_appends_zero_port() {
    assert_eq!(lookup_string("example.com"), "example.com:0");
    assert_eq!(lookup_string("127.0.0.1"), "127.0.0.1:0");
    assert_eq!(lookup_string(""), ":0");
}
