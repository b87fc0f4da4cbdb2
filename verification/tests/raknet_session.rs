use pocketmine::binary::BinaryStream;
use pocketmine::raklib::address::{InternetAddress, IpAddress};
use pocketmine::raklib::connection::{
    DisconnectReason, Session, SessionError, SessionEvent, SessionMeta, SessionOutput,
};
use pocketmine::raklib::protocol::ack::{AcknowledgePacket, ACK};
use pocketmine::raklib::protocol::consts::{RELIABLE, UNRELIABLE};
use pocketmine::raklib::protocol::frame::{Datagram, EncapsulatedPacket, SplitPacketInfo};
use pocketmine::raklib::reliability::SplitPacketError;
use pocketmine::raklib::session::SessionState;

fn peer() -> InternetAddress {
    InternetAddress::new(IpAddress::V4([10, 0, 0, 2]), 19132)
}

fn session(state: SessionState, now: u64) -> Session {
    let meta = SessionMeta { internal_id: 7, addr: peer(), client_id: 99, mtu_size: 1400 };
    Session::new(meta, state, now)
}

fn packet(reliability: u8, body: &[u8]) -> EncapsulatedPacket {
    let mut p = EncapsulatedPacket::new();
    p.reliability = reliability;
    p.buffer = body.to_vec();
    p
}

fn datagram(seq: u32, packets: Vec<EncapsulatedPacket>) -> Datagram {
    let mut d = Datagram::new();
    d.seq_number = seq;
    d.packets = packets;
    d
}

fn ping_bytes(time: u64) -> Vec<u8> {
    let mut v = vec![0x00];
    v.extend_from_slice(&time.to_be_bytes());
    v
}

fn pong_bytes(ping_time: u64, pong_time: u64) -> Vec<u8> {
    let mut v = vec![0x03];
    v.extend_from_slice(&ping_time.to_be_bytes());
    v.extend_from_slice(&pong_time.to_be_bytes());
    v
}

fn sent_buffers(out: &SessionOutput) -> Vec<Vec<u8>> {
    out.datagrams.iter().flat_map(|d| d.packets.iter().map(|p| p.buffer.clone())).collect()
}

#[test]
fn session_new_keeps_its_identity() {
    let s = session(SessionState::Connected, 1000);
    assert_eq!(s.internal_id(), 7);
    assert_eq!(s.client_id(), 99);
    assert_eq!(s.address(), peer());
    assert_eq!(s.get_state(), SessionState::Connected);
    assert!(s.is_fully_connected());
    assert!(s.is_potentially_connected());
    assert!(!s.is_fully_disconnected());
    assert_eq!(s.last_ping_ms(), 0);
}

#[test]
fn session_reason_of_split_errors() {
    assert_eq!(
        DisconnectReason::from_split_error(SplitPacketError::TooLarge { part_count: 500 }),
        DisconnectReason::SplitPacketTooLarge
    );
    assert_eq!(
        DisconnectReason::from_split_error(SplitPacketError::InvalidPartIndex {
            part_index: 9,
            part_count: 2
        }),
        DisconnectReason::SplitPacketInvalidPartIndex
    );
    assert_eq!(
        DisconnectReason::from_split_error(SplitPacketError::TooManyConcurrent { limit: 4 }),
        DisconnectReason::SplitPacketTooManyConcurrent
    );
    assert_eq!(
        DisconnectReason::from_split_error(SplitPacketError::InconsistentHeader {
            split_id: 3,
            part_count: 2,
            expected: 3
        }),
        DisconnectReason::SplitPacketInconsistentHeader
    );
}

#[test]
fn session_user_packets_come_back_once_connected() {
    let mut s = session(SessionState::Connected, 0);
    let mut out = SessionOutput::new();
    let users = s
        .handle_datagram(
            datagram(0, vec![packet(UNRELIABLE, &[0x86, 1, 2]), packet(UNRELIABLE, &[0xfe, 9])]),
            10,
            &mut out,
        )
        .unwrap();
    assert_eq!(users, vec![vec![0x86, 1, 2], vec![0xfe, 9]]);
    assert!(out.events.is_empty());

    let mut early = session(SessionState::ConnectingOnline, 0);
    let users = early
        .handle_datagram(datagram(0, vec![packet(UNRELIABLE, &[0x86, 1])]), 10, &mut out)
        .unwrap();
    assert!(users.is_empty());
}

#[test]
fn session_ping_is_answered_with_a_pong() {
    let mut s = session(SessionState::Connected, 0);
    let mut out = SessionOutput::new();
    let users = s
        .handle_datagram(datagram(0, vec![packet(UNRELIABLE, &ping_bytes(1234))]), 100, &mut out)
        .unwrap();
    assert!(users.is_empty());
    s.update(100, &mut out);
    let sent = sent_buffers(&out);
    assert_eq!(sent, vec![pong_bytes(1234, 100)]);
    // a datagram at the start of the window moves it on without an acknowledgement
    assert!(out.acknowledgements.is_empty());
}

#[test]
fn session_pings_and_measures_the_round_trip() {
    let mut s = session(SessionState::Connected, 0);
    let mut out = SessionOutput::new();
    s.update(6000, &mut out);
    assert_eq!(sent_buffers(&out), vec![ping_bytes(6000)]);

    let mut out = SessionOutput::new();
    s.handle_datagram(datagram(0, vec![packet(UNRELIABLE, &pong_bytes(6000, 6010))]), 6040, &mut out)
        .unwrap();
    assert_eq!(out.events, vec![SessionEvent::PingMeasured(40)]);
    assert_eq!(s.last_ping_ms(), 40);

    // a pong that answers no ping is ignored
    let mut out = SessionOutput::new();
    s.handle_datagram(datagram(1, vec![packet(UNRELIABLE, &pong_bytes(5, 6))]), 6050, &mut out)
        .unwrap();
    assert!(out.events.is_empty());
    assert_eq!(s.last_ping_ms(), 40);
}

#[test]
fn session_times_out_when_silent() {
    let mut s = session(SessionState::Connected, 1000);
    let mut out = SessionOutput::new();
    s.update(31000, &mut out);
    assert_eq!(s.get_state(), SessionState::Connected);
    assert!(out.events.is_empty());
    s.update(31001, &mut out);
    assert_eq!(s.get_state(), SessionState::Disconnected);
    assert_eq!(out.events, vec![SessionEvent::Disconnected(DisconnectReason::PeerTimeout)]);
    // a closed connection reports nothing more
    s.update(90000, &mut out);
    assert_eq!(out.events.len(), 1);
}

#[test]
fn session_graceful_close_notifies_then_closes() {
    let mut s = session(SessionState::Connected, 0);
    let mut out = SessionOutput::new();
    s.initiate_disconnect(DisconnectReason::ServerDisconnect, 10, &mut out);
    assert_eq!(s.get_state(), SessionState::DisconnectingGraceful);
    assert_eq!(out.events, vec![SessionEvent::Disconnected(DisconnectReason::ServerDisconnect)]);
    // asking again reports nothing more
    s.initiate_disconnect(DisconnectReason::ServerShutdown, 11, &mut out);
    assert_eq!(out.events.len(), 1);

    s.update(20, &mut out);
    assert_eq!(s.get_state(), SessionState::DisconnectingNotified);
    assert_eq!(sent_buffers(&out), vec![vec![0x15]]);
    let seq = out.datagrams[0].seq_number;

    // the notification is not acknowledged yet
    s.update(30, &mut out);
    assert_eq!(s.get_state(), SessionState::DisconnectingNotified);

    let ack = ACK(AcknowledgePacket { packets: vec![seq] });
    s.handle_ack(&ack, 40, &mut out);
    s.update(50, &mut out);
    assert_eq!(s.get_state(), SessionState::Disconnected);
    assert_eq!(out.events.len(), 1);
}

#[test]
fn session_graceful_close_gives_up_after_its_timeout() {
    let mut s = session(SessionState::Connected, 0);
    let mut out = SessionOutput::new();
    s.queue_user_packet(vec![0x90, 1], RELIABLE, 0, true, 0, &mut out).unwrap();
    s.initiate_disconnect(DisconnectReason::ServerDisconnect, 100, &mut out);
    s.update(200, &mut out);
    assert_eq!(s.get_state(), SessionState::DisconnectingGraceful);
    s.update(5101, &mut out);
    assert_eq!(s.get_state(), SessionState::Disconnected);
    assert_eq!(out.events.len(), 1);
}

#[test]
fn session_peer_notification_closes() {
    let mut s = session(SessionState::Connected, 0);
    let mut out = SessionOutput::new();
    let users = s
        .handle_datagram(
            datagram(0, vec![packet(UNRELIABLE, &[0x15]), packet(UNRELIABLE, &[0x90])]),
            5,
            &mut out,
        )
        .unwrap();
    assert_eq!(s.get_state(), SessionState::Disconnected);
    assert_eq!(out.events, vec![SessionEvent::Disconnected(DisconnectReason::ClientDisconnect)]);
    assert!(users.is_empty());
}

#[test]
fn session_force_disconnect_reports_once() {
    let mut s = session(SessionState::ConnectingOnline, 0);
    let mut out = SessionOutput::new();
    s.force_disconnect(DisconnectReason::ServerShutdown, &mut out);
    assert!(s.is_fully_disconnected());
    s.force_disconnect(DisconnectReason::ServerShutdown, &mut out);
    assert_eq!(out.events, vec![SessionEvent::Disconnected(DisconnectReason::ServerShutdown)]);
}

#[test]
fn session_queue_refusals() {
    let mut s = session(SessionState::ConnectingOffline, 0);
    let mut out = SessionOutput::new();
    assert_eq!(
        s.queue_user_packet(vec![0x90], RELIABLE, 0, true, 0, &mut out),
        Err(SessionError::NotConnected)
    );
    let mut s = session(SessionState::Connected, 0);
    assert_eq!(
        s.queue_user_packet_needs_ack(vec![0x90], UNRELIABLE, 0, true, 1, 0, &mut out),
        Err(SessionError::ReceiptForUnreliable)
    );
    assert!(out.datagrams.is_empty());
    assert_eq!(s.queue_user_packet(vec![0x90, 7], UNRELIABLE, 0, true, 0, &mut out), Ok(()));
    assert_eq!(sent_buffers(&out), vec![vec![0x90, 7]]);
}

#[test]
fn session_receipt_is_reported_when_acknowledged() {
    let mut s = session(SessionState::Connected, 0);
    let mut out = SessionOutput::new();
    s.queue_user_packet_needs_ack(vec![0x90, 1], RELIABLE, 0, true, 42, 0, &mut out).unwrap();
    assert_eq!(out.datagrams.len(), 1);
    let seq = out.datagrams[0].seq_number;
    let ack = ACK(AcknowledgePacket { packets: vec![seq] });
    s.handle_ack(&ack, 10, &mut out);
    assert_eq!(out.events, vec![SessionEvent::PacketAcked(42)]);
}

#[test]
fn session_refused_split_packet_is_an_error() {
    let mut s = session(SessionState::Connected, 0);
    let mut out = SessionOutput::new();
    let mut p = packet(RELIABLE, &[0x90]);
    p.message_index = Some(0);
    p.split_info = Some(SplitPacketInfo { id: 1, part_index: 0, total_part_count: 1000 });
    let r = s.handle_datagram(datagram(0, vec![p]), 1, &mut out);
    assert!(matches!(r, Err(SplitPacketError::TooLarge { .. })));
}

#[test]
fn session_handshake_packets_leave_a_plain_connection_unchanged() {
    let mut s = session(SessionState::ConnectingOnline, 0);
    assert_eq!(s.handle_connection_request(vec![0x09]), Ok(()));
    assert_eq!(s.handle_connection_request_accepted(vec![0x10]), Ok(()));
    assert_eq!(s.handle_new_incoming_connection(vec![0x13]), Ok(()));
    let mut out = SessionOutput::new();
    let users = s
        .handle_datagram(datagram(0, vec![packet(UNRELIABLE, &[0x13, 1, 2])]), 3, &mut out)
        .unwrap();
    assert!(users.is_empty());
    assert_eq!(s.get_state(), SessionState::ConnectingOnline);
    assert!(out.events.is_empty() && out.datagrams.is_empty());
}

#[test]
fn session_raw_ack_reports_the_receipt() {
    let mut s = session(SessionState::Connected, 0);
    let mut out = SessionOutput::new();
    s.queue_user_packet_needs_ack(vec![0x90, 1], RELIABLE, 0, true, 5, 0, &mut out).unwrap();
    assert_eq!(out.datagrams[0].seq_number, 0);
    // one record holding the single number 0
    let taken = s.handle_raw_packet(&[0xc0, 0x00, 0x01, 0x01, 0x00, 0x00, 0x00], 20, &mut out);
    assert_eq!(taken, Some(vec![]));
    assert_eq!(out.events, vec![SessionEvent::PacketAcked(5)]);
}

#[test]
fn session_raw_datagram_gives_user_packets() {
    let mut s = session(SessionState::Connected, 0);
    let mut out = SessionOutput::new();
    let mut stream = BinaryStream::new();
    datagram(0, vec![packet(UNRELIABLE, &[0x90, 4])]).encode(&mut stream).unwrap();
    let taken = s.handle_raw_packet(stream.get_buffer(), 30, &mut out);
    assert_eq!(taken, Some(vec![vec![0x90, 4]]));
}

#[test]
fn session_raw_bytes_that_are_no_datagram_are_not_taken() {
    let mut s = session(SessionState::Connected, 0);
    let mut out = SessionOutput::new();
    assert_eq!(s.handle_raw_packet(&[0x05, 1, 2], 30, &mut out), None);
    assert_eq!(s.handle_raw_packet(&[], 30, &mut out), None);
    assert!(out.events.is_empty() && out.datagrams.is_empty());
}
