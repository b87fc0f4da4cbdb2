use pocketmine::raklib::address::{InternetAddress, IpAddress};
use pocketmine::raklib::handler::SimpleProtocolAcceptor;
use pocketmine::raklib::ip_table::{same_ip, IpTable};
use pocketmine::raklib::protocol::magic;
use pocketmine::raklib::server::{Server, ServerEvent, ServerOutput};

const IP: IpAddress = IpAddress::V4([192, 168, 1, 7]);

fn from() -> InternetAddress {
    InternetAddress::new(IP, 40000)
}

fn server() -> Server {
    Server::new(0xABCD, SimpleProtocolAcceptor::new(11), 0)
}

fn request1(protocol: u8, size: usize) -> Vec<u8> {
    let mut bytes = vec![0x05];
    bytes.extend(magic());
    bytes.push(protocol);
    bytes.resize(size, 0);
    bytes
}

fn raw_events(out: &ServerOutput) -> usize {
    out.events.iter().filter(|e| matches!(e, ServerEvent::RawPacket(..))).count()
}

#[test]
fn server_new_defaults() {
    let s = server();
    assert_eq!(s.server_id(), 0xABCD);
    assert_eq!(s.get_name(), "PocketMine-rs Server");
    assert!(s.port_checking());
}

#[test]
fn server_setters() {
    let mut s = server();
    s.set_name("Lobby".to_string());
    s.set_port_check(false);
    assert_eq!(s.get_name(), "Lobby");
    assert!(!s.port_checking());
}

#[test]
fn server_answers_an_open_connection_request() {
    let mut s = server();
    let mut out = ServerOutput::new();
    s.start_tick(0);
    s.handle_raw_packet(request1(11, 600), from(), 0, &mut out).unwrap();
    assert_eq!(out.sends.len(), 1);
    assert_eq!(out.sends[0].0, from());
    assert_eq!(out.sends[0].1[0], 0x06);
    assert!(out.events.is_empty());
}

#[test]
fn server_reports_what_no_handler_takes() {
    let mut s = server();
    let mut out = ServerOutput::new();
    s.start_tick(0);
    s.handle_raw_packet(vec![0xfe, 1, 2], from(), 0, &mut out).unwrap();
    assert!(out.sends.is_empty());
    match &out.events[..] {
        [ServerEvent::RawPacket(a, bytes)] => {
            assert_eq!(*a, from());
            assert_eq!(bytes, &vec![0xfe, 1, 2]);
        }
        other => panic!("unexpected events {:?}", other),
    }
}

#[test]
fn server_truncated_request_is_an_error() {
    let mut s = server();
    let mut out = ServerOutput::new();
    s.start_tick(0);
    // a second open connection request whose fields are cut short
    let mut bytes = vec![0x07];
    bytes.extend(magic());
    bytes.push(4);
    assert!(s.handle_raw_packet(bytes, from(), 0, &mut out).is_err());
    assert!(out.sends.is_empty() && out.events.is_empty());
}

#[test]
fn server_blocks_an_address_over_its_limit() {
    let mut s = server();
    s.set_packets_per_tick_limit(2);
    let mut out = ServerOutput::new();
    s.start_tick(0);
    for _ in 0..3 {
        s.handle_raw_packet(vec![0xfe], from(), 0, &mut out).unwrap();
    }
    assert_eq!(raw_events(&out), 2);

    // the block outlasts the tick
    s.start_tick(10);
    s.handle_raw_packet(vec![0xfe], from(), 10, &mut out).unwrap();
    assert_eq!(raw_events(&out), 2);

    // another address is not affected
    let other = InternetAddress::new(IpAddress::V4([192, 168, 1, 8]), 40000);
    s.handle_raw_packet(vec![0xfe], other, 10, &mut out).unwrap();
    assert_eq!(raw_events(&out), 3);

    // the block ends after five minutes
    s.start_tick(300_001);
    s.handle_raw_packet(vec![0xfe], from(), 300_001, &mut out).unwrap();
    assert_eq!(raw_events(&out), 4);
}

#[test]
fn server_unblocks_on_request() {
    let mut s = server();
    let mut out = ServerOutput::new();
    s.start_tick(0);
    s.block_address(IP, 60, 0);
    s.handle_raw_packet(vec![0xfe], from(), 5, &mut out).unwrap();
    assert!(out.events.is_empty());
    s.unblock_address(IP);
    s.handle_raw_packet(vec![0xfe], from(), 6, &mut out).unwrap();
    assert_eq!(raw_events(&out), 1);
}

#[test]
fn server_reports_bandwidth_each_second_and_lifts_ended_blocks() {
    let mut s = server();
    let mut out = ServerOutput::new();
    s.start_tick(0);
    s.block_address(IP, 1, 0);
    let other = InternetAddress::new(IpAddress::V6([0; 16]), 1);
    s.handle_raw_packet(request1(11, 600), other, 0, &mut out).unwrap();
    let sent = out.sends[0].1.len() as u64;
    s.handle_raw_packet(vec![0xfe; 10], from(), 500, &mut out).unwrap();
    s.finish_tick(999, &mut out);
    assert_eq!(out.events.len(), 0);
    s.finish_tick(1000, &mut out);
    match &out.events[..] {
        [ServerEvent::BandwidthStats(s_bytes, r_bytes)] => {
            assert_eq!(*s_bytes, sent);
            assert_eq!(*r_bytes, 610);
        }
        other => panic!("unexpected events {:?}", other),
    }
    // the block ended at 1000 and is lifted
    s.start_tick(1001);
    s.handle_raw_packet(vec![0xfe], from(), 1001, &mut out).unwrap();
    assert_eq!(raw_events(&out), 1);
    // counts start anew
    s.finish_tick(2001, &mut out);
    match out.events.last() {
        Some(ServerEvent::BandwidthStats(0, 1)) => {}
        other => panic!("unexpected event {:?}", other),
    }
}

#[test]
fn ip_table_keeps_one_entry_per_address() {
    let a = IpAddress::V4([1, 2, 3, 4]);
    let b = IpAddress::V6([1; 16]);
    assert!(same_ip(&a, &IpAddress::V4([1, 2, 3, 4])));
    assert!(!same_ip(&a, &b));
    let mut t: IpTable<u64> = IpTable::new();
    t.insert(a, 5);
    t.insert(b, 9);
    t.insert(a, 7);
    assert_eq!(t.len(), 2);
    assert_eq!(t.get(&a), Some(7));
    t.retain_above(8);
    assert_eq!(t.get(&a), None);
    assert_eq!(t.get(&b), Some(9));
    t.remove(&b);
    assert_eq!(t.len(), 0);
}
