use pocketmine::raklib::protocol::ack::{AcknowledgePacket, ACK, NACK};
use pocketmine::raklib::protocol::consts::{
    RELIABLE, RELIABLE_ORDERED, RELIABLE_SEQUENCED, UNRELIABLE, UNRELIABLE_SEQUENCED,
};
use pocketmine::raklib::protocol::frame::{Datagram, EncapsulatedPacket, SplitPacketInfo};
use pocketmine::raklib::reliability::send::{chunks, SendReliabilityLayer};
use pocketmine::raklib::reliability::{
    seq_greater_than, seq_less_than, AcknowledgePacketWrapper, ReceiveReliabilityLayer,
    SplitPacketError,
};

fn packet(reliability: u8, body: &[u8]) -> EncapsulatedPacket {
    let mut p = EncapsulatedPacket::new();
    p.reliability = reliability;
    p.buffer = body.to_vec();
    p
}

fn datagram(seq: u32, packets: Vec<EncapsulatedPacket>) -> Datagram {
    let mut d = Datagram::new();
    d.seq_number = seq;
    d.packets = packets;
    d
}

fn numbers(w: &AcknowledgePacketWrapper) -> (bool, Vec<u32>) {
    match w {
        AcknowledgePacketWrapper::Ack(a) => (true, a.0.packets.clone()),
        AcknowledgePacketWrapper::Nack(n) => (false, n.0.packets.clone()),
    }
}

#[test]
fn reliability_sequence_comparisons_wrap() {
    assert!(seq_greater_than(5, 3));
    assert!(!seq_greater_than(3, 5));
    assert!(seq_greater_than(1, 0xFFFFFF));
    assert!(seq_less_than(0xFFFFFF, 1));
    assert!(!seq_less_than(4, 4) && !seq_greater_than(4, 4));
}

#[test]
fn reliability_receive_delivers_and_acknowledges() {
    let mut layer = ReceiveReliabilityLayer::new(512, 128, 4);
    let mut delivered = Vec::new();
    layer.on_datagram(datagram(0, vec![packet(UNRELIABLE, b"a")]), &mut delivered).unwrap();
    assert_eq!(delivered.len(), 1);
    assert_eq!(delivered[0].buffer, b"a".to_vec());
    assert!(!layer.needs_update());

    layer.on_datagram(datagram(2, vec![packet(UNRELIABLE, b"c")]), &mut delivered).unwrap();
    assert_eq!(delivered.len(), 2);
    assert!(layer.needs_update());
    let out = layer.update();
    assert_eq!(out.len(), 2);
    assert_eq!(numbers(&out[0]), (true, vec![2]));
    assert_eq!(numbers(&out[1]), (false, vec![1]));
    assert_eq!(out[0].id(), 0xC0);
    assert_eq!(out[1].id(), 0xA0);
    assert!(!layer.needs_update());
}

#[test]
fn reliability_receive_ignores_duplicates_and_old() {
    let mut layer = ReceiveReliabilityLayer::new(512, 128, 4);
    let mut delivered = Vec::new();
    layer.on_datagram(datagram(0, vec![packet(UNRELIABLE, b"x")]), &mut delivered).unwrap();
    layer.on_datagram(datagram(0, vec![packet(UNRELIABLE, b"x")]), &mut delivered).unwrap();
    assert_eq!(delivered.len(), 1);
    layer.on_datagram(datagram(3, vec![packet(UNRELIABLE, b"y")]), &mut delivered).unwrap();
    layer.on_datagram(datagram(3, vec![packet(UNRELIABLE, b"y")]), &mut delivered).unwrap();
    assert_eq!(delivered.len(), 2);
    layer.on_datagram(datagram(600, vec![packet(UNRELIABLE, b"z")]), &mut delivered).unwrap();
    assert_eq!(delivered.len(), 2);
}

#[test]
fn reliability_receive_fills_gaps() {
    let mut layer = ReceiveReliabilityLayer::new(512, 128, 4);
    let mut delivered = Vec::new();
    layer.on_datagram(datagram(1, vec![]), &mut delivered).unwrap();
    layer.on_datagram(datagram(0, vec![]), &mut delivered).unwrap();
    let out = layer.update();
    assert!(out.is_empty());
}

#[test]
fn reliability_receive_orders_packets() {
    let mut layer = ReceiveReliabilityLayer::new(512, 128, 4);
    let mut delivered = Vec::new();
    let mut second = packet(RELIABLE_ORDERED, b"second");
    second.message_index = Some(1);
    second.order_index = Some(1);
    second.order_channel = Some(0);
    let mut first = packet(RELIABLE_ORDERED, b"first");
    first.message_index = Some(0);
    first.order_index = Some(0);
    first.order_channel = Some(0);
    layer.on_datagram(datagram(0, vec![second]), &mut delivered).unwrap();
    assert!(delivered.is_empty());
    layer.on_datagram(datagram(1, vec![first]), &mut delivered).unwrap();
    assert_eq!(delivered.len(), 2);
    assert_eq!(delivered[0].buffer, b"first".to_vec());
    assert_eq!(delivered[1].buffer, b"second".to_vec());
}

#[test]
fn reliability_receive_drops_old_sequenced() {
    let mut layer = ReceiveReliabilityLayer::new(512, 128, 4);
    let mut delivered = Vec::new();
    let mut newer = packet(UNRELIABLE_SEQUENCED, b"new");
    newer.sequence_index = Some(5);
    newer.order_index = Some(0);
    newer.order_channel = Some(1);
    let mut older = packet(UNRELIABLE_SEQUENCED, b"old");
    older.sequence_index = Some(3);
    older.order_index = Some(0);
    older.order_channel = Some(1);
    layer.on_datagram(datagram(0, vec![newer, older]), &mut delivered).unwrap();
    assert_eq!(delivered.len(), 1);
    assert_eq!(delivered[0].buffer, b"new".to_vec());
}

fn part(id: u16, index: u32, count: u32, body: &[u8]) -> EncapsulatedPacket {
    let mut p = packet(RELIABLE, body);
    p.message_index = Some(index);
    p.split_info = Some(SplitPacketInfo { id, part_index: index, total_part_count: count });
    p
}

#[test]
fn reliability_receive_reassembles_split_packets() {
    let mut layer = ReceiveReliabilityLayer::new(512, 128, 4);
    let mut delivered = Vec::new();
    layer.on_datagram(datagram(0, vec![part(7, 1, 3, b"world")]), &mut delivered).unwrap();
    layer.on_datagram(datagram(1, vec![part(7, 0, 3, b"hello ")]), &mut delivered).unwrap();
    assert!(delivered.is_empty());
    layer.on_datagram(datagram(2, vec![part(7, 2, 3, b"!")]), &mut delivered).unwrap();
    assert_eq!(delivered.len(), 1);
    assert_eq!(delivered[0].buffer, b"hello world!".to_vec());
    assert!(delivered[0].split_info.is_none());
}

#[test]
fn reliability_receive_refuses_bad_split_headers() {
    let mut layer = ReceiveReliabilityLayer::new(512, 2, 1);
    let mut delivered = Vec::new();
    assert_eq!(
        layer.on_datagram(datagram(0, vec![part(1, 0, 0, b"x")]), &mut delivered),
        Err(SplitPacketError::TooLarge { part_count: 0 })
    );
    assert_eq!(
        layer.on_datagram(datagram(1, vec![part(1, 0, 3, b"x")]), &mut delivered),
        Err(SplitPacketError::TooLarge { part_count: 3 })
    );
    assert_eq!(
        layer.on_datagram(datagram(2, vec![part(1, 2, 2, b"x")]), &mut delivered),
        Err(SplitPacketError::InvalidPartIndex { part_index: 2, part_count: 2 })
    );
    layer.on_datagram(datagram(3, vec![part(1, 0, 2, b"x")]), &mut delivered).unwrap();
    assert_eq!(
        layer.on_datagram(datagram(4, vec![part(2, 0, 2, b"y")]), &mut delivered),
        Err(SplitPacketError::TooManyConcurrent { limit: 1 })
    );
    assert_eq!(
        layer.on_datagram(datagram(5, vec![part(1, 0, 1, b"x")]), &mut delivered),
        Err(SplitPacketError::InconsistentHeader { split_id: 1, part_count: 1, expected: 2 })
    );
    assert!(delivered.is_empty());
}

#[test]
fn reliability_chunks_cut_evenly() {
    let data: Vec<u8> = (0..10).collect();
    let pieces = chunks(&data, 4);
    assert_eq!(pieces, vec![vec![0, 1, 2, 3], vec![4, 5, 6, 7], vec![8, 9]]);
    assert!(chunks(&Vec::new(), 4).is_empty());
}

#[test]
fn reliability_send_bundles_and_numbers() {
    let mut layer = SendReliabilityLayer::new(1492, 512);
    let mut sent = Vec::new();
    layer.add_encapsulated_to_queue(packet(UNRELIABLE, b"one"), false, 0, &mut sent);
    layer.add_encapsulated_to_queue(packet(RELIABLE, b"two"), true, 0, &mut sent);
    assert_eq!(sent.len(), 1);
    assert_eq!(sent[0].seq_number, 0);
    assert_eq!(sent[0].packets.len(), 2);
    assert_eq!(sent[0].packets[1].message_index, Some(0));
    assert!(layer.needs_update());

    let mut acked = Vec::new();
    layer.on_ack(&ACK(AcknowledgePacket { packets: vec![0] }), &mut acked);
    assert!(acked.is_empty());
    assert!(!layer.needs_update());
}

#[test]
fn reliability_send_orders_on_channels() {
    let mut layer = SendReliabilityLayer::new(1492, 512);
    let mut sent = Vec::new();
    for _ in 0..3 {
        let mut p = packet(RELIABLE_ORDERED, b"o");
        p.order_channel = Some(2);
        layer.add_encapsulated_to_queue(p, true, 0, &mut sent);
    }
    let mut s = packet(RELIABLE_SEQUENCED, b"s");
    s.order_channel = Some(2);
    layer.add_encapsulated_to_queue(s, true, 0, &mut sent);
    assert_eq!(sent.len(), 4);
    let orders: Vec<_> = sent.iter().map(|d| d.packets[0].order_index).collect();
    assert_eq!(orders, vec![Some(0), Some(1), Some(2), Some(3)]);
    assert_eq!(sent[3].packets[0].sequence_index, Some(0));
    let seqs: Vec<_> = sent.iter().map(|d| d.seq_number).collect();
    assert_eq!(seqs, vec![0, 1, 2, 3]);

    let mut bad = packet(RELIABLE_ORDERED, b"bad");
    bad.order_channel = Some(40);
    layer.add_encapsulated_to_queue(bad, true, 0, &mut sent);
    assert_eq!(sent.len(), 4);
}

#[test]
fn reliability_split_send_then_receive_gives_the_packet_back() {
    let mut sender = SendReliabilityLayer::new(576, 512);
    let body: Vec<u8> = (0..2000u32).map(|i| (i % 251) as u8).collect();
    let mut p = packet(RELIABLE_ORDERED, &body);
    p.order_channel = Some(0);
    let mut sent = Vec::new();
    sender.add_encapsulated_to_queue(p, false, 0, &mut sent);
    assert!(sent.len() > 1);
    for d in &sent {
        let size: usize = d.packets.iter().map(|p| p.total_length()).sum();
        assert!(size <= 576 - 40);
    }
    let mut receiver = ReceiveReliabilityLayer::new(512, 128, 4);
    let mut delivered = Vec::new();
    for d in sent {
        receiver.on_datagram(d, &mut delivered).unwrap();
    }
    assert_eq!(delivered.len(), 1);
    assert_eq!(delivered[0].buffer, body);
}

#[test]
fn reliability_nack_resends() {
    let mut layer = SendReliabilityLayer::new(1492, 512);
    let mut sent = Vec::new();
    layer.add_encapsulated_to_queue(packet(RELIABLE, b"again"), true, 0, &mut sent);
    assert_eq!(sent.len(), 1);
    layer.on_nack(&NACK(AcknowledgePacket { packets: vec![0] }));
    layer.update(10, &mut sent);
    assert_eq!(sent.len(), 2);
    assert_eq!(sent[1].seq_number, 1);
    assert_eq!(sent[1].packets[0].buffer, b"again".to_vec());
    assert_eq!(sent[1].packets[0].message_index, Some(0));
}

#[test]
fn reliability_timeout_resends() {
    let mut layer = SendReliabilityLayer::new(1492, 512);
    let mut sent = Vec::new();
    layer.add_encapsulated_to_queue(packet(RELIABLE, b"late"), true, 100, &mut sent);
    layer.update(1000, &mut sent);
    assert_eq!(sent.len(), 1);
    layer.update(2101, &mut sent);
    assert_eq!(sent.len(), 2);
    assert_eq!(sent[1].packets[0].buffer, b"late".to_vec());
}

#[test]
fn reliability_receipt_is_reported_when_acknowledged() {
    let mut layer = SendReliabilityLayer::new(1492, 512);
    let mut sent = Vec::new();
    let mut p = packet(RELIABLE, b"receipt");
    p.identifier_ack = Some(77);
    layer.add_encapsulated_to_queue(p, true, 0, &mut sent);
    assert_eq!(sent[0].packets[0].identifier_ack, None);
    let mut acked = Vec::new();
    layer.on_ack(&ACK(AcknowledgePacket { packets: vec![0] }), &mut acked);
    assert_eq!(acked, vec![77]);
}

#[test]
fn reliability_split_parts_carry_their_headers() {
    let mut sender = SendReliabilityLayer::new(576, 512);
    let body: Vec<u8> = (0..2000u32).map(|i| (i % 7) as u8).collect();
    let mut sent = Vec::new();
    sender.add_encapsulated_to_queue(packet(RELIABLE, &body), false, 0, &mut sent);
    let n = sent.len() as u32;
    assert!(n > 1);
    let mut joined = Vec::new();
    for (i, d) in sent.iter().enumerate() {
        assert_eq!(d.seq_number, i as u32);
        assert_eq!(d.packets.len(), 1);
        let q = &d.packets[0];
        assert_eq!(q.split_info, Some(SplitPacketInfo { id: 1, part_index: i as u32, total_part_count: n }));
        assert_eq!(q.reliability, RELIABLE);
        assert_eq!(q.message_index, Some(i as u32));
        assert!(q.total_length() <= 576 - 40);
        joined.extend_from_slice(&q.buffer);
    }
    assert_eq!(joined, body);
}

#[test]
fn reliability_receipt_is_reported_once() {
    let mut layer = SendReliabilityLayer::new(1492, 512);
    let mut sent = Vec::new();
    let mut p = packet(RELIABLE, &[0x86]);
    p.identifier_ack = Some(7);
    layer.add_encapsulated_to_queue(p, true, 0, &mut sent);
    let mut acked = Vec::new();
    layer.on_ack(&ACK(AcknowledgePacket { packets: vec![0] }), &mut acked);
    assert_eq!(acked, vec![7]);
    assert!(!layer.needs_update());
    layer.on_ack(&ACK(AcknowledgePacket { packets: vec![0] }), &mut acked);
    assert_eq!(acked, vec![7]);
    assert_eq!(sent.len(), 1);
}

#[test]
fn reliability_nack_resends_once() {
    let mut layer = SendReliabilityLayer::new(1492, 512);
    let mut sent = Vec::new();
    layer.add_encapsulated_to_queue(packet(RELIABLE, b"first"), true, 0, &mut sent);
    layer.add_encapsulated_to_queue(packet(RELIABLE, b"second"), true, 0, &mut sent);
    assert_eq!(sent.len(), 2);
    layer.on_nack(&NACK(AcknowledgePacket { packets: vec![1, 1, 7] }));
    assert!(layer.needs_update());
    layer.on_nack(&NACK(AcknowledgePacket { packets: vec![1] }));
    layer.update(10, &mut sent);
    assert_eq!(sent.len(), 3);
    assert_eq!(sent[2].packets.len(), 1);
    assert_eq!(sent[2].packets[0].buffer, b"second".to_vec());
    // datagram 0 is still awaited; datagram 1 is no longer.
    let mut acked = Vec::new();
    layer.on_ack(&ACK(AcknowledgePacket { packets: vec![0, 2] }), &mut acked);
    assert!(!layer.needs_update());
}

#[test]
fn reliability_immediate_sends_the_queue() {
    let mut layer = SendReliabilityLayer::new(1492, 512);
    let mut sent = Vec::new();
    layer.add_encapsulated_to_queue(packet(UNRELIABLE, b"a"), false, 0, &mut sent);
    layer.add_encapsulated_to_queue(packet(UNRELIABLE, b"b"), false, 0, &mut sent);
    assert!(sent.is_empty());
    assert!(layer.needs_update());
    layer.add_encapsulated_to_queue(packet(UNRELIABLE, b"c"), true, 0, &mut sent);
    assert_eq!(sent.len(), 1);
    let bodies: Vec<_> = sent[0].packets.iter().map(|p| p.buffer.clone()).collect();
    assert_eq!(bodies, vec![b"a".to_vec(), b"b".to_vec(), b"c".to_vec()]);
    assert!(!layer.needs_update());
}

#[test]
fn reliability_split_after_queued_packet() {
    let mut sender = SendReliabilityLayer::new(576, 512);
    let mut sent = Vec::new();
    sender.add_encapsulated_to_queue(packet(UNRELIABLE, b"queued"), false, 0, &mut sent);
    assert!(sent.is_empty());
    let body: Vec<u8> = (0..1200u32).map(|i| (i % 13) as u8).collect();
    sender.add_encapsulated_to_queue(packet(UNRELIABLE, &body), false, 0, &mut sent);
    assert!(sent.len() >= 3);
    assert_eq!(sent[0].packets[0].buffer, b"queued".to_vec());
    for d in &sent[1..] {
        assert_eq!(d.packets.len(), 1);
    }
    let seqs: Vec<u32> = sent.iter().map(|d| d.seq_number).collect();
    let expected: Vec<u32> = (0..sent.len() as u32).collect();
    assert_eq!(seqs, expected);
    assert!(!sender.needs_update());
}
