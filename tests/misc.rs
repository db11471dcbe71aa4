use arpchat::config::Config;
use arpchat::interfaces::{sorted_usable_interfaces, InterfaceSummary};
use arpchat::ui::{color_index, input_command, same_chars, window_title, NetCommand};
use arpchat::worker::{contains_bytes, Timing};

fn iface(name: &str, has_mac: bool, ip_count: usize) -> InterfaceSummary {
    InterfaceSummary { name: name.to_string(), has_mac, ip_count }
}

#[test]
fn interfaces_sorted_by_ip_count() {
    let list = vec![
        iface("lo", true, 1),
        iface("eth0", true, 3),
        iface("tun0", false, 2),
        iface("wlan0", true, 0),
        iface("eth1", true, 3),
        iface("br0", true, 2),
    ];
    assert_eq!(sorted_usable_interfaces(&list), vec![1, 4, 5, 0]);
    assert_eq!(sorted_usable_interfaces(&vec![]), Vec::<usize>::new());
}

#[test]
fn colour_slot_from_id() {
    assert_eq!(color_index(&[0; 8]), 0);
    assert_eq!(color_index(&[1, 2, 3, 4, 5, 6, 7, 8]), 36 % 8);
    assert_eq!(color_index(&[255, 255, 0, 0, 0, 0, 0, 3]), ((255 + 255 + 3) % 256) % 8);
}

#[test]
fn titles() {
    assert_eq!(window_title("alice", "eth0"), "arpchat: alice (eth0)");
    assert_eq!(window_title("alice", "enp0s31f6"), "arpchat: alice");
    assert_eq!(window_title("", "12345678"), "arpchat:  (12345678)");
}

#[test]
fn byte_search() {
    assert!(contains_bytes(b"hey alice!", b"alice"));
    assert!(!contains_bytes(b"hey alic", b"alice"));
    assert!(contains_bytes(b"abc", b""));
    assert!(contains_bytes(b"abc", b"abc"));
    assert!(!contains_bytes(b"", b"a"));
}

#[test]
fn default_settings() {
    let c = Config::default();
    assert!(c.username.is_none() && c.interface.is_none() && c.ether_type.is_none());
    let t = Timing::defaults();
    assert_eq!((t.heartbeat_interval, t.inactive_timeout, t.offline_timeout), (1000, 5000, 15000));
}

#[test]
fn typed_lines_become_commands() {
    assert_eq!(input_command("general", "/offline"), Some(NetCommand::PauseHeartbeat(true)));
    assert_eq!(input_command("general", "/online"), Some(NetCommand::PauseHeartbeat(false)));
    assert_eq!(input_command("general", ""), None);
    assert_eq!(
        input_command("general", "hello"),
        Some(NetCommand::SendMessage("general".to_string(), "hello".to_string()))
    );
    assert!(same_chars("héllo", "héllo"));
    assert!(!same_chars("hello", "hellö"));
    assert!(!same_chars("hell", "hello"));
}
