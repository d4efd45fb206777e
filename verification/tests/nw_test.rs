use tg::g::Error;
use tg::nw::tools::{bytes_to_sockaddr, sockaddr_to_bytes, SockAddr};

#[test]
fn test_ip_to_bytes() {
    // [::1]:8080
    let loopback6 = [0, 0, 0, 0, 0, 0, 0, 0, 0, 0, 0, 0, 0, 0, 0, 1];
    let (ip, port) = sockaddr_to_bytes(&SockAddr::v6(loopback6, 8080)).unwrap();
    assert_eq!(ip.len(), 16);
    assert_eq!(port, 8080);

    let addr = bytes_to_sockaddr(&ip, port).unwrap();
    assert_eq!(addr.ip(), &loopback6[..]);
    assert_eq!(addr.port(), 8080);
    assert!(!addr.is_ipv4());

    // 192.168.0.112:6688
    let (ip, port) = sockaddr_to_bytes(&SockAddr::v4([192, 168, 0, 112], 6688)).unwrap();
    assert_eq!(ip.len(), 4);
    assert_eq!(port, 6688);

    let addr = bytes_to_sockaddr(&ip, port).unwrap();
    assert_eq!(addr.ip(), &[192u8, 168, 0, 112][..]);
    assert_eq!(addr.port(), 6688);
    assert!(addr.is_ipv4());
}

#[test]
fn sockaddr_bytes_of_ipv4() {
    let (ip, port) = sockaddr_to_bytes(&SockAddr::v4([0, 0, 0, 0], 6688)).unwrap();
    assert_eq!(ip, vec![0u8; 4]);
    assert_eq!(port, 6688);
    let addr = bytes_to_sockaddr(&ip, port).unwrap();
    assert_eq!(addr.ip(), &[0u8, 0, 0, 0][..]);
    assert_eq!(addr.port(), 6688);
    assert!(addr.is_ipv4());
}

#[test]
fn sockaddr_port_zero_is_invalid() {
    assert!(matches!(bytes_to_sockaddr(&[127, 0, 0, 1], 0), Err(Error::NwInvalidPort)));
    // The port is checked before the address.
    assert!(matches!(bytes_to_sockaddr(&[1, 2, 3], 0), Err(Error::NwInvalidPort)));
}

#[test]
fn sockaddr_bad_length_is_invalid() {
    assert!(matches!(bytes_to_sockaddr(&[1, 2, 3], 80), Err(Error::NwInvalidIP)));
    assert!(matches!(bytes_to_sockaddr(&[], 80), Err(Error::NwInvalidIP)));
    assert!(matches!(bytes_to_sockaddr(&[0u8; 8], 80), Err(Error::NwInvalidIP)));
    assert!(bytes_to_sockaddr(&[0u8; 16], 80).is_ok());
}

#[test]
fn sockaddr_roundtrip_keeps_address() {
    let a = SockAddr::v6([0xfe, 0x80, 0, 0, 0, 0, 0, 0, 0, 0, 0, 0, 0, 0, 0, 7], 443);
    let (ip, port) = sockaddr_to_bytes(&a).unwrap();
    let b = bytes_to_sockaddr(&ip, port).unwrap();
    assert_eq!(b.ip(), a.ip());
    assert_eq!(b.port(), a.port());
    assert!(!b.is_ipv4());
}
