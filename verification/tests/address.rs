use pocketmine::binary::BinaryStream;
use pocketmine::raklib::address::{InternetAddress, IpAddress};

fn ipv6_octets() -> [u8; 16] {
    [
        0x20, 0x01, 0x0d, 0xb8, 0x85, 0xa3, 0x00, 0x00, 0x00, 0x00, 0x8a, 0x2e, 0x03, 0x70, 0x73,
        0x34,
    ]
}

fn check_ipv6_serialization() {
    let octets = ipv6_octets();
    let port = 19133;
    let addr = InternetAddress::new(IpAddress::V6(octets), port);

    let mut stream = BinaryStream::new();
    addr.write_to(&mut stream).unwrap();

    let mut expected: Vec<u8> = vec![0x06];
    expected.extend(&(libc::AF_INET6 as u16).to_le_bytes());
    expected.extend(&port.to_be_bytes());
    expected.extend(&[0u8; 4]);
    expected.extend(&octets);
    expected.extend(&[0u8; 4]);

    assert_eq!(stream.get_buffer().len(), 1 + 2 + 2 + 4 + 16 + 4);
    assert_eq!(stream.get_buffer(), &expected[..]);

    stream.rewind();
    let decoded_addr = InternetAddress::read_from(&mut stream).unwrap();
    assert_eq!(decoded_addr, addr);
    assert!(stream.feof());
}

#[test]
fn address_test_ipv6_serialization() {
    check_ipv6_serialization();
}

#[test]
fn address_ipv4_encoding_inverts_octets() {
    let addr = InternetAddress::new(IpAddress::V4([192, 168, 1, 100]), 19132);
    let mut stream = BinaryStream::new();
    addr.write_to(&mut stream).unwrap();
    // version 4, each octet inverted (!192, !168, !1, !100), then the port big-endian
    let expected = vec![0x04, 0x3F, 0x57, 0xFE, 0x9B, 0x4A, 0xBC];
    assert_eq!(stream.get_buffer(), &expected[..]);
    stream.rewind();
    let decoded_addr = InternetAddress::read_from(&mut stream).unwrap();
    assert_eq!(decoded_addr, addr);
    assert!(stream.feof());
}

#[test]
fn error_test_ipv6_serialization() {
    check_ipv6_serialization();
}

#[test]
fn address_unknown_version_is_refused() {
    let mut stream = BinaryStream::from_slice(&[5, 1, 2, 3]);
    let err = InternetAddress::read_from(&mut stream).unwrap_err();
    assert_eq!(err.to_string(), "Unknown IP address version 5");
}

#[test]
fn address_truncated_ipv4_is_short() {
    let mut stream = BinaryStream::from_slice(&[4, 1, 2]);
    let err = InternetAddress::read_from(&mut stream).unwrap_err();
    assert!(err.is_not_enough_data());
}

#[test]
fn address_version_reported() {
    let v4 = InternetAddress::new(IpAddress::V4([127, 0, 0, 1]), 1);
    let v6 = InternetAddress::new(IpAddress::V6(ipv6_octets()), 2);
    assert_eq!(v4.version(), 4);
    assert_eq!(v6.version(), 6);
    assert_eq!(v4.port(), 1);
    assert_eq!(v6.ip(), IpAddress::V6(ipv6_octets()));
}
