use pocketmine::binary::BinaryStream;
use pocketmine::raklib::protocol::ack::{AcknowledgePacket, ACK, NACK};
use pocketmine::raklib::protocol::consts::{
    is_ordered, is_reliable, is_sequenced, is_sequenced_or_ordered, RELIABLE, RELIABLE_ORDERED,
    RELIABLE_SEQUENCED, UNRELIABLE, UNRELIABLE_SEQUENCED,
};
use pocketmine::raklib::protocol::frame::{Datagram, EncapsulatedPacket, SplitPacketInfo};
use pocketmine::raklib::protocol::magic;
use pocketmine::raklib::protocol::packets::{
    ConnectedPing, ConnectedPong, IncompatibleProtocolVersion, OpenConnectionReply1,
    UnconnectedPing,
};

fn magic_vec() -> Vec<u8> {
    magic().to_vec()
}

#[test]
fn raknet_reliability_classes() {
    assert!(is_reliable(RELIABLE) && !is_sequenced(RELIABLE) && !is_ordered(RELIABLE));
    assert!(is_reliable(RELIABLE_ORDERED) && is_ordered(RELIABLE_ORDERED));
    assert!(is_sequenced(RELIABLE_SEQUENCED) && is_sequenced_or_ordered(RELIABLE_SEQUENCED));
    assert!(!is_reliable(UNRELIABLE_SEQUENCED) && is_sequenced(UNRELIABLE_SEQUENCED));
    assert!(!is_reliable(UNRELIABLE) && !is_sequenced_or_ordered(UNRELIABLE));
}

#[test]
fn raknet_unconnected_ping_bytes_and_round_trip() {
    let ping = UnconnectedPing { send_ping_time: 0x0102030405060708, client_id: 7 };
    let mut stream = BinaryStream::new();
    ping.encode(&mut stream).unwrap();
    let mut expected = vec![0x01, 1, 2, 3, 4, 5, 6, 7, 8];
    expected.extend(magic_vec());
    expected.extend(&7u64.to_be_bytes());
    assert_eq!(stream.get_buffer(), &expected[..]);
    let mut reader = BinaryStream::from_slice(&expected[1..]);
    assert_eq!(UnconnectedPing::decode(&mut reader).unwrap(), ping);
}

#[test]
fn raknet_reply1_and_incompatible_round_trip() {
    let reply = OpenConnectionReply1::create(99, false, 1400);
    let mut stream = BinaryStream::new();
    reply.encode(&mut stream).unwrap();
    let bytes = stream.get_buffer().to_vec();
    assert_eq!(bytes[0], 0x06);
    assert_eq!(bytes.len(), 1 + 16 + 8 + 1 + 2);
    let mut reader = BinaryStream::from_slice(&bytes[1..]);
    assert_eq!(OpenConnectionReply1::decode(&mut reader).unwrap(), reply);

    let inc = IncompatibleProtocolVersion::create(11, 5);
    let mut stream = BinaryStream::new();
    inc.encode(&mut stream).unwrap();
    let bytes = stream.get_buffer().to_vec();
    assert_eq!(&bytes[..2], &[0x19, 11]);
    let mut reader = BinaryStream::from_slice(&bytes[1..]);
    assert_eq!(IncompatibleProtocolVersion::decode(&mut reader).unwrap(), inc);
}

#[test]
fn raknet_connected_ping_pong_round_trip() {
    let ping = ConnectedPing::create(123456);
    let mut stream = BinaryStream::new();
    ping.encode(&mut stream).unwrap();
    assert_eq!(stream.get_buffer().len(), 9);
    let mut reader = BinaryStream::from_slice(stream.get_buffer());
    assert_eq!(ConnectedPing::decode(&mut reader).unwrap(), ping);

    let pong = ConnectedPong::create(1, 2);
    let mut stream = BinaryStream::new();
    pong.encode(&mut stream).unwrap();
    let mut reader = BinaryStream::from_slice(stream.get_buffer());
    assert_eq!(ConnectedPong::decode(&mut reader).unwrap(), pong);
}

#[test]
fn raknet_ack_groups_runs_of_numbers() {
    let ack = ACK(AcknowledgePacket { packets: vec![5, 2, 1, 3] });
    let mut stream = BinaryStream::new();
    ack.encode(&mut stream).unwrap();
    let expected = vec![0xC0, 0, 2, 0, 1, 0, 0, 3, 0, 0, 1, 5, 0, 0];
    assert_eq!(stream.get_buffer(), &expected[..]);
    let mut reader = BinaryStream::from_slice(&expected);
    let back = ACK::decode(&mut reader).unwrap();
    assert_eq!(back.0.packets, vec![1, 2, 3, 5]);
}

#[test]
fn raknet_nack_round_trip_and_duplicates() {
    let nack = NACK(AcknowledgePacket { packets: vec![10, 10, 11, 20] });
    let mut stream = BinaryStream::new();
    nack.encode(&mut stream).unwrap();
    assert_eq!(stream.get_buffer()[0], 0xA0);
    let mut reader = BinaryStream::from_slice(stream.get_buffer());
    let back = NACK::decode(&mut reader).unwrap();
    assert_eq!(back.0.packets, vec![10, 11, 20]);
}

#[test]
fn raknet_empty_ack() {
    let ack = ACK(AcknowledgePacket { packets: vec![] });
    let mut stream = BinaryStream::new();
    ack.encode(&mut stream).unwrap();
    assert_eq!(stream.get_buffer(), &[0xC0, 0, 0]);
}

#[test]
fn raknet_ack_with_bad_record_type_is_refused() {
    let bytes = vec![0xC0, 0, 1, 7, 0, 0, 0];
    let mut reader = BinaryStream::from_slice(&bytes);
    assert!(ACK::decode(&mut reader).is_err());
}

fn ordered_packet() -> EncapsulatedPacket {
    let mut p = EncapsulatedPacket::new();
    p.reliability = RELIABLE_ORDERED;
    p.message_index = Some(0x010203);
    p.order_index = Some(7);
    p.order_channel = Some(3);
    p.buffer = vec![0xAA, 0xBB];
    p
}

#[test]
fn raknet_encapsulated_bytes_and_round_trip() {
    let p = ordered_packet();
    let bytes = p.to_binary().unwrap();
    assert_eq!(
        bytes,
        vec![RELIABLE_ORDERED << 5, 0, 16, 3, 2, 1, 7, 0, 0, 3, 0xAA, 0xBB]
    );
    assert_eq!(p.total_length(), bytes.len());
    let mut reader = BinaryStream::from_slice(&bytes);
    let back = EncapsulatedPacket::from_binary(&mut reader).unwrap();
    assert_eq!(back.reliability, RELIABLE_ORDERED);
    assert_eq!(back.message_index, Some(0x010203));
    assert_eq!(back.order_index, Some(7));
    assert_eq!(back.order_channel, Some(3));
    assert_eq!(back.buffer, vec![0xAA, 0xBB]);
    assert!(reader.feof());
}

#[test]
fn raknet_split_packet_header_round_trip() {
    let mut p = EncapsulatedPacket::new();
    p.reliability = RELIABLE;
    p.message_index = Some(1);
    p.split_info = Some(SplitPacketInfo { id: 4, part_index: 1, total_part_count: 3 });
    p.buffer = vec![9; 5];
    let bytes = p.to_binary().unwrap();
    assert_eq!(bytes[0], (RELIABLE << 5) | 0x10);
    assert_eq!(p.header_length(), 3 + 3 + 10);
    let mut reader = BinaryStream::from_slice(&bytes);
    let back = EncapsulatedPacket::from_binary(&mut reader).unwrap();
    assert_eq!(back.split_info, p.split_info);
    assert_eq!(back.buffer, p.buffer);
}

#[test]
fn raknet_zero_length_packet_is_refused() {
    let bytes = vec![0u8, 0, 0];
    let mut reader = BinaryStream::from_slice(&bytes);
    assert!(EncapsulatedPacket::from_binary(&mut reader).is_err());
}

#[test]
fn raknet_datagram_round_trip() {
    let mut d = Datagram::new();
    d.seq_number = 0x0A0B0C;
    let mut u = EncapsulatedPacket::new();
    u.buffer = vec![1, 2, 3];
    d.packets.push(u);
    d.packets.push(ordered_packet());
    let mut stream = BinaryStream::new();
    d.encode(&mut stream).unwrap();
    let bytes = stream.get_buffer().to_vec();
    assert_eq!(&bytes[..4], &[0x80, 0x0C, 0x0B, 0x0A]);
    assert_eq!(bytes.len(), d.length());
    let mut reader = BinaryStream::from_slice(&bytes);
    let back = Datagram::decode(&mut reader).unwrap();
    assert_eq!(back.seq_number, 0x0A0B0C);
    assert_eq!(back.header_flags, 0);
    assert_eq!(back.packets.len(), 2);
    assert_eq!(back.packets[0].buffer, vec![1, 2, 3]);
    assert_eq!(back.packets[1].order_index, Some(7));
    assert!(!back.is_ack() && !back.is_nack());
}

#[test]
fn datagram_length_counts_the_encoded_bytes() {
    let mut d = Datagram::new();
    d.seq_number = 5;
    let mut a = EncapsulatedPacket::new();
    a.buffer = vec![1, 2, 3];
    d.packets.push(a);
    let mut b = EncapsulatedPacket::new();
    b.reliability = RELIABLE_ORDERED;
    b.message_index = Some(4);
    b.order_index = Some(2);
    b.order_channel = Some(0);
    b.split_info = Some(SplitPacketInfo { id: 1, part_index: 0, total_part_count: 2 });
    b.buffer = vec![9; 20];
    d.packets.push(b);
    let mut stream = BinaryStream::new();
    d.encode(&mut stream).unwrap();
    assert_eq!(d.length(), stream.get_buffer().len());
    assert_eq!(d.length(), 4 + (3 + 3) + (3 + 3 + 4 + 10 + 20));
}

#[test]
fn raknet_ack_any_order_reads_back_distinct_sorted() {
    let ack = ACK(AcknowledgePacket { packets: vec![7, 3, 3, 4, 9, 8, 3] });
    let mut stream = BinaryStream::new();
    ack.encode(&mut stream).unwrap();
    let mut reader = BinaryStream::from_slice(stream.get_buffer());
    let back = ACK::decode(&mut reader).unwrap();
    assert_eq!(back.0.packets, vec![3, 4, 7, 8, 9]);
    assert!(reader.feof());
}
