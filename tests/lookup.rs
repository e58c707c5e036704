use rxtx::filter::{matches_lowered, tcp_matches_filter};
use rxtx::hostname::{lookup_outcome, CacheEntry, HostnameCache};
use rxtx::models::TcpStats;

fn conn(remote: [u8; 4], remote_port: u16, state: u64, uid: u32, inode: u64) -> TcpStats {
    TcpStats {
        sl: 0,
        local_ip: [10, 0, 0, 1],
        local_port: 22,
        remote_ip: remote,
        remote_port,
        state,
        tx_queue: 0,
        rx_queue: 0,
        timer_active: 0,
        timer_when: 0,
        retransmit_timeout: 0,
        uid,
        timeout: 0,
        inode,
    }
}

#[test]
fn one_lookup_per_address() {
    let mut c = HostnameCache::new();
    let ip = [93, 184, 216, 34];
    assert!(c.ensure_resolving(&ip));
    assert!(!c.ensure_resolving(&ip));
    assert!(!c.ensure_resolving(&ip));
    assert!(matches!(c.get(&ip), Some(CacheEntry::Pending)));
    assert_eq!(c.display_name(&ip), "resolving...");
    c.complete(&ip, "example.org".to_string());
    assert!(!c.ensure_resolving(&ip));
    assert_eq!(c.display_name(&ip), "example.org");
    c.complete(&ip, "other.org".to_string());
    assert_eq!(c.display_name(&ip), "example.org");
}

#[test]
fn unresolvable_addresses_never_looked_up() {
    let mut c = HostnameCache::new();
    assert!(!c.ensure_resolving(&[0, 0, 0, 0]));
    assert!(!c.ensure_resolving(&[127, 0, 0, 1]));
    assert!(c.get(&[0, 0, 0, 0]).is_none());
    assert_eq!(c.display_name(&[127, 0, 0, 1]), "-");
    assert_eq!(c.display_name(&[8, 8, 8, 8]), "");
    assert!(c.ensure_resolving(&[127, 0, 0, 2]));
}

#[test]
fn completion_without_pending_entry_is_ignored() {
    let mut c = HostnameCache::new();
    c.complete(&[1, 1, 1, 1], "one.one".to_string());
    assert!(c.get(&[1, 1, 1, 1]).is_none());
}

#[test]
fn lookup_outcome_text() {
    assert_eq!(lookup_outcome(None), "-");
    assert_eq!(lookup_outcome(Some("host.example".to_string())), "host.example");
    let thirty = "a".repeat(30);
    assert_eq!(lookup_outcome(Some(thirty.clone())), thirty);
    let long = "abcdefghijklmnopqrstuvwxyz0123456789.example.com".to_string();
    assert_eq!(lookup_outcome(Some(long)), "abcdefghijklmnopqrstuvwxyz0...");
}

#[test]
fn filter_80_matches_port_and_uid() {
    let c = HostnameCache::new();
    let by_port = conn([1, 2, 3, 4], 8080, 1, 0, 5);
    let by_uid = conn([1, 2, 3, 4], 443, 1, 180, 5);
    let neither = conn([1, 2, 3, 4], 443, 1, 1000, 5);
    assert!(tcp_matches_filter(&by_port, "80", &c));
    assert!(tcp_matches_filter(&by_uid, "80", &c));
    assert!(!tcp_matches_filter(&neither, "80", &c));
}

#[test]
fn empty_filter_matches_everything() {
    let c = HostnameCache::new();
    assert!(tcp_matches_filter(&conn([1, 2, 3, 4], 443, 1, 1000, 5), "", &c));
}

#[test]
fn filter_is_case_insensitive_on_state() {
    let c = HostnameCache::new();
    let listening = conn([0, 0, 0, 0], 0, 0x0A, 1000, 5);
    assert!(tcp_matches_filter(&listening, "Listen", &c));
    assert!(tcp_matches_filter(&listening, "LISTEN", &c));
    assert!(!tcp_matches_filter(&listening, "established", &c));
    assert!(matches_lowered(&listening, "listen", &c));
    assert!(!matches_lowered(&listening, "LISTEN", &c));
}

#[test]
fn filter_on_addresses_and_inode() {
    let c = HostnameCache::new();
    let x = conn([192, 168, 1, 7], 443, 1, 1000, 424242);
    assert!(tcp_matches_filter(&x, "192.168.1.7:443", &c));
    assert!(tcp_matches_filter(&x, "10.0.0.1:22", &c));
    assert!(tcp_matches_filter(&x, "4242", &c));
    assert!(!tcp_matches_filter(&x, "10.0.0.2", &c));
}

#[test]
fn filter_on_resolved_hostname_only() {
    let mut c = HostnameCache::new();
    let ip = [151, 101, 1, 69];
    let x = conn(ip, 443, 1, 1000, 5);
    assert!(c.ensure_resolving(&ip));
    assert!(!tcp_matches_filter(&x, "resolving", &c));
    c.complete(&ip, "Cdn.Example.NET".to_string());
    assert!(tcp_matches_filter(&x, "example.net", &c));
    assert!(tcp_matches_filter(&x, "CDN", &c));
    assert!(!tcp_matches_filter(&x, "other", &c));
}

#[test]
fn ascii_filter_lowered_like_state_names() {
    let c = HostnameCache::new();
    let closing = conn([1, 2, 3, 4], 443, 0x0B, 1000, 5);
    assert!(tcp_matches_filter(&closing, "CLOSING", &c));
    assert!(tcp_matches_filter(&closing, "clos", &c));
    assert!(!tcp_matches_filter(&closing, "CLOSE_", &c));
}
