use pocketmine::log::{exception_message, tag_line, LogLevel, PrefixedLogger, SimpleLogger};
use pocketmine::raklib::session::SessionState;
use pocketmine::raklib::table::{SeqMap, SeqSet};
use pocketmine::raklib::{DEFAULT_PROTOCOL_VERSION, DEFAULT_SYSTEM_ADDRESS_COUNT};

#[test]
fn log_levels_and_lines() {
    assert_eq!(LogLevel::Warning.to_str(), "warning");
    assert_eq!(LogLevel::Emergency.to_str(), "emergency");
    assert_eq!(SimpleLogger::new().format(LogLevel::Info, "Server starting..."), "[info] Server starting...");
    assert_eq!(tag_line("x", ""), "[x] ");
}

#[test]
fn log_prefixed_logger() {
    let mut logger = PrefixedLogger::new(SimpleLogger::new(), "MyPlugin".to_string());
    assert_eq!(logger.get_prefix(), "MyPlugin");
    assert_eq!(logger.prefixed("Plugin loaded!"), "[MyPlugin] Plugin loaded!");
    logger.set_prefix("MyPlugin-Updated".to_string());
    assert_eq!(logger.get_prefix(), "MyPlugin-Updated");
    let line = logger.delegate().format(LogLevel::Warning, &logger.prefixed("changed"));
    assert_eq!(line, "[warning] [MyPlugin-Updated] changed");
}

#[test]
fn log_exception_chain() {
    let chain = vec!["outer".to_string(), "middle".to_string(), "root".to_string()];
    assert_eq!(exception_message(&chain), "Error: outer\nCaused by: middle\nCaused by: root");
    assert_eq!(exception_message(&vec!["only".to_string()]), "Error: only");
}

#[test]
fn session_states() {
    assert!(SessionState::Connected.is_potentially_connected());
    assert!(SessionState::ConnectingOnline.is_potentially_connected());
    assert!(!SessionState::ConnectingOffline.is_potentially_connected());
    assert!(SessionState::Connected.is_fully_connected());
    assert!(SessionState::Disconnected.is_fully_disconnected());
}

#[test]
fn session_close_is_reported_once() {
    let (s, report) = SessionState::Connected.initiate_disconnect();
    assert_eq!((s, report), (SessionState::DisconnectingGraceful, true));
    assert_eq!(s.initiate_disconnect(), (SessionState::DisconnectingGraceful, false));
    assert_eq!(s.force_disconnect(), (SessionState::Disconnected, false));
    assert_eq!(SessionState::Connected.force_disconnect(), (SessionState::Disconnected, true));
    assert_eq!(SessionState::Disconnected.force_disconnect(), (SessionState::Disconnected, false));
    assert_eq!(
        SessionState::DisconnectingNotified.initiate_disconnect(),
        (SessionState::DisconnectingNotified, false)
    );
}

#[test]
fn table_set_keeps_order_and_no_repeats() {
    let mut s = SeqSet::new();
    for x in [5u32, 1, 3, 5, 2] {
        s.insert(x);
    }
    assert_eq!(s.to_vec(), vec![1, 2, 3, 5]);
    assert!(s.contains(3));
    s.remove(3);
    assert!(!s.contains(3));
    assert_eq!(s.len(), 3);
    s.clear();
    assert!(s.is_empty());
}

#[test]
fn table_map_insert_get_remove() {
    let mut m: SeqMap<&str> = SeqMap::new();
    assert_eq!(m.insert(10, "ten"), None);
    assert_eq!(m.insert(2, "two"), None);
    assert_eq!(m.insert(10, "TEN"), Some("ten"));
    assert_eq!(m.get(10), Some(&"TEN"));
    assert_eq!(m.len(), 2);
    assert_eq!(m.key_list(), vec![2, 10]);
    assert_eq!(m.remove(2), Some("two"));
    assert!(!m.contains_key(2));
    assert_eq!(m.remove(2), None);
}

#[test]
fn raknet_defaults() {
    assert_eq!(DEFAULT_PROTOCOL_VERSION, 11);
    assert_eq!(DEFAULT_SYSTEM_ADDRESS_COUNT, 20);
}
