use pocketmine::binary::BinaryStream;
use pocketmine::raklib::address::{InternetAddress, IpAddress};
use pocketmine::raklib::handler::{
    check_offline_magic, decode_offline, OfflinePacket, OfflineReply, SimpleProtocolAcceptor,
    UnconnectedMessageHandler,
};
use pocketmine::raklib::protocol::magic;
use pocketmine::raklib::protocol::packets::{
    OpenConnectionReply1, OpenConnectionRequest1, UnconnectedPing, UnconnectedPong,
};

fn client() -> InternetAddress {
    InternetAddress::new(IpAddress::V4([127, 0, 0, 1]), 19132)
}

fn handler() -> UnconnectedMessageHandler {
    UnconnectedMessageHandler::new(0xABCD, SimpleProtocolAcceptor::new(11))
}

fn request1(protocol: u8, size: usize) -> Vec<u8> {
    let mut bytes = vec![0x05];
    bytes.extend(magic());
    bytes.push(protocol);
    bytes.resize(size, 0);
    bytes
}

fn sent(reply: OfflineReply) -> Vec<u8> {
    match reply {
        OfflineReply::Send(bytes) => bytes,
        other => panic!("expected bytes to send, got {:?}", other),
    }
}

#[test]
fn handler_acceptor_accepts_one_version() {
    let a = SimpleProtocolAcceptor::new(11);
    assert!(a.accepts(11));
    assert!(!a.accepts(10));
    assert_eq!(a.primary_version(), 11);
}

#[test]
fn handler_ping_gets_a_pong() {
    let ping = UnconnectedPing { send_ping_time: 1234, client_id: 9 };
    let reply = handler()
        .handle_offline_message(OfflinePacket::UnconnectedPing(ping), client())
        .unwrap();
    assert!(reply.is_handled());
    let bytes = sent(reply);
    let mut expected = BinaryStream::new();
    UnconnectedPong::create(1234, 0xABCD, "Rust RakNet Server".to_string())
        .encode(&mut expected)
        .unwrap();
    assert_eq!(bytes, expected.get_buffer().to_vec());
}

#[test]
fn handler_raw_ping_lacks_the_marker_after_its_id() {
    // A ping carries its time before the offline marker, so the marker check, which looks
    // right after the id byte, does not take it for an offline message.
    let mut stream = BinaryStream::new();
    UnconnectedPing { send_ping_time: 1234, client_id: 9 }.encode(&mut stream).unwrap();
    let reply = handler().handle_raw(stream.get_buffer(), client()).unwrap();
    assert!(matches!(reply, OfflineReply::Ignored));
}

#[test]
fn handler_first_request_gets_the_mtu() {
    let bytes = sent(handler().handle_raw(&request1(11, 1200), client()).unwrap());
    let mut expected = BinaryStream::new();
    OpenConnectionReply1::create(0xABCD, false, 1200).encode(&mut expected).unwrap();
    assert_eq!(bytes, expected.get_buffer().to_vec());

    let bytes = sent(handler().handle_raw(&request1(11, 1600), client()).unwrap());
    let mut expected = BinaryStream::new();
    OpenConnectionReply1::create(0xABCD, false, 1492).encode(&mut expected).unwrap();
    assert_eq!(bytes, expected.get_buffer().to_vec());
}

#[test]
fn handler_wrong_protocol_is_told_the_version() {
    let bytes = sent(handler().handle_raw(&request1(9, 600), client()).unwrap());
    assert_eq!(bytes[0], 0x19);
    assert_eq!(bytes[1], 11);
    assert_eq!(&bytes[2..18], &magic()[..]);
    assert_eq!(&bytes[18..], &0xABCDu64.to_be_bytes());
}

fn request2(mtu: u16) -> Vec<u8> {
    let mut bytes = vec![0x07];
    bytes.extend(magic());
    let mut stream = BinaryStream::new();
    client().write_to(&mut stream).unwrap();
    bytes.extend(stream.get_buffer());
    bytes.extend(&mtu.to_be_bytes());
    bytes.extend(&77u64.to_be_bytes());
    bytes
}

#[test]
fn handler_second_request() {
    let decoded = decode_offline(&request2(1000)).unwrap();
    match decoded {
        Some(OfflinePacket::OpenConnectionRequest2(pk)) => {
            assert_eq!(pk.mtu_size, 1000);
            assert_eq!(pk.client_id, 77);
            assert_eq!(pk.server_address, client());
        }
        other => panic!("unexpected {:?}", other),
    }
    let bytes = sent(handler().handle_raw(&request2(1000), client()).unwrap());
    assert_eq!(bytes[0], 0x08);
    assert_eq!(&bytes[1..17], &magic()[..]);
    assert_eq!(&bytes[17..25], &0xABCDu64.to_be_bytes());
    assert_eq!(&bytes[bytes.len() - 3..], &[0x03, 0xE8, 0]);
}

#[test]
fn handler_small_mtu_is_dropped() {
    let reply = handler().handle_raw(&request2(300), client()).unwrap();
    assert!(matches!(reply, OfflineReply::Dropped));
    assert!(reply.is_handled());
}

#[test]
fn handler_ignores_what_is_not_offline() {
    assert!(matches!(handler().handle_raw(&[], client()).unwrap(), OfflineReply::Ignored));
    assert!(!handler().handle_raw(&[0x84, 0, 0, 0], client()).unwrap().is_handled());
    let mut other = vec![0x1C];
    other.extend(magic());
    assert!(matches!(handler().handle_raw(&other, client()).unwrap(), OfflineReply::Ignored));
    assert!(!check_offline_magic(&[0x01, 0, 1, 2]));
    let mut ok = vec![0x01];
    ok.extend(magic());
    assert!(check_offline_magic(&ok));
}

#[test]
fn handler_truncated_ping_is_an_error() {
    let mut bytes = vec![0x01];
    bytes.extend(magic());
    bytes.extend(&[1, 2, 3]);
    assert!(handler().handle_raw(&bytes, client()).is_err());
}

#[test]
fn handler_request1_is_padded_to_its_mtu() {
    let mut s = BinaryStream::new();
    OpenConnectionRequest1 { protocol: 11, mtu_size: 1000 }.encode(&mut s).unwrap();
    assert_eq!(s.get_buffer().len(), 1000);
    match decode_offline(s.get_buffer()).unwrap() {
        Some(OfflinePacket::OpenConnectionRequest1(q)) => {
            assert_eq!(q.protocol, 11);
            assert_eq!(q.mtu_size, 1000);
        }
        other => panic!("unexpected {:?}", other),
    }
    let mut t = BinaryStream::new();
    assert!(OpenConnectionRequest1 { protocol: 11, mtu_size: 10 }.encode(&mut t).is_err());
}
