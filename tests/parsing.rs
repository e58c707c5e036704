use rxtx::models::TcpStats;
use rxtx::parser::{
    extract_speed, format_ip, format_timer, parse_hex_value_pairs, parse_hex_values,
    parse_ip_address, parse_proc_net_dev, parse_proc_net_tcp, tcp_state_name, parse_uptime, ParseError,
};

const DEV_HEADER: &str = "Inter-|   Receive                                                |  Transmit\n face |bytes    packets errs drop fifo frame compressed multicast|bytes    packets errs drop fifo colls carrier compressed\n";

const TCP_HEADER: &str = "  sl  local_address rem_address   st tx_queue rx_queue tr tm->when retrnsmt   uid  timeout inode\n";

#[test]
fn counter_line_round_trip() {
    let text = format!("{}  eth0: 12345 10 0 0 0 0 0 0 0 0 0 0 0 0 0 0\n", DEV_HEADER);
    let stats = parse_proc_net_dev(&text);
    assert_eq!(stats.len(), 1);
    let s = &stats[0];
    assert_eq!(s.name, "eth0");
    assert_eq!(s.receive.bytes, 12345);
    assert_eq!(s.receive.packets, 10);
    assert_eq!(s.receive.errs, 0);
    assert_eq!(s.receive.drop, 0);
    assert_eq!(s.receive.fifo, 0);
    assert_eq!(s.receive.frame, 0);
    assert_eq!(s.receive.compressed, 0);
    assert_eq!(s.receive.multicast, 0);
    assert_eq!(s.transmit.bytes, 0);
    assert_eq!(s.transmit.packets, 0);
    assert_eq!(s.transmit.compressed, 0);
}

#[test]
fn counter_columns_in_order() {
    let text = format!(
        "{}    lo: 1 2 3 4 5 6 7 8 9 10 11 12 13 14 15 16\n",
        DEV_HEADER
    );
    let stats = parse_proc_net_dev(&text);
    assert_eq!(stats.len(), 1);
    let r = stats[0].receive;
    let t = stats[0].transmit;
    assert_eq!(stats[0].name, "lo");
    assert_eq!(
        [r.bytes, r.packets, r.errs, r.drop, r.fifo, r.frame, r.compressed, r.multicast],
        [1, 2, 3, 4, 5, 6, 7, 8]
    );
    assert_eq!(
        [t.bytes, t.packets, t.errs, t.drop, t.fifo, t.colls, t.carrier, t.compressed],
        [9, 10, 11, 12, 13, 14, 15, 16]
    );
}

#[test]
fn counter_table_skips_bad_lines() {
    let text = format!(
        "{}  eth0 1 2 3\n  wlan0: 1 2 3 4 5 6 7 8 9 10 11 12 13 14 15\n  eth1: 5 0 0 0 0 0 0 0 7 0 0 0 0 0 0 0\n",
        DEV_HEADER
    );
    let stats = parse_proc_net_dev(&text);
    assert_eq!(stats.len(), 1);
    assert_eq!(stats[0].name, "eth1");
    assert_eq!(stats[0].receive.bytes, 5);
    assert_eq!(stats[0].transmit.bytes, 7);
}

#[test]
fn counter_table_headers_only_and_empty() {
    assert_eq!(parse_proc_net_dev(DEV_HEADER).len(), 0);
    assert_eq!(parse_proc_net_dev("").len(), 0);
    // the first two lines are headers even when they look like records
    let text = "a: 1 2 3 4 5 6 7 8 9 10 11 12 13 14 15 16\nb: 1 2 3 4 5 6 7 8 9 10 11 12 13 14 15 16\n";
    assert_eq!(parse_proc_net_dev(text).len(), 0);
}

#[test]
fn counter_value_too_large_is_left_out() {
    let text = format!(
        "{}  eth0: 18446744073709551616 1 2 3 4 5 6 7 8 9 10 11 12 13 14 15 16
  eth1: 18446744073709551615 1 2 3 4 5 6 7 8 9 10 11 12 13 14 15
  eth2: 18446744073709551616 1 2 3 4 5 6 7 8 9 10 11 12 13 14 15
",
        DEV_HEADER
    );
    let stats = parse_proc_net_dev(&text);
    assert_eq!(stats.len(), 1);
    assert_eq!(stats[0].name, "eth1");
    assert_eq!(stats[0].receive.bytes, u64::MAX);
    assert_eq!(stats[0].transmit.compressed, 15);
}

#[test]
fn counter_line_with_a_word_is_skipped() {
    let text = format!(
        "{}a: x 0 0 0 0 0 0 0 0 0 0 0 0 0 0 0 0
  eth0: 1 0 0 0 0 0 0 0 2 0 0 0 0 0 0 x
",
        DEV_HEADER
    );
    assert_eq!(parse_proc_net_dev(&text).len(), 0);
    let with_good = format!("{}  lo: 4 0 0 0 0 0 0 0 4 0 0 0 0 0 0 0
", text);
    let stats = parse_proc_net_dev(&with_good);
    assert_eq!(stats.len(), 1);
    assert_eq!(stats[0].name, "lo");
}

#[test]
fn loopback_address_and_listen_state() {
    assert_eq!(parse_ip_address("0100007F:1F90"), Ok(([127, 0, 0, 1], 8080)));
    let state = parse_hex_values("0A").unwrap();
    assert_eq!(tcp_state_name(state), "LISTEN");
}

#[test]
fn address_bytes_are_reversed() {
    assert_eq!(parse_ip_address("0201A8C0:0016"), Ok(([192, 168, 1, 2], 22)));
    assert_eq!(parse_ip_address("00000000:0000"), Ok(([0, 0, 0, 0], 0)));
}

#[test]
fn address_errors() {
    assert_eq!(parse_ip_address("0100007F"), Err(ParseError::MissingPort));
    assert_eq!(parse_ip_address("0100007G:1F90"), Err(ParseError::InvalidAddress));
    assert_eq!(parse_ip_address("100007F:1F90"), Err(ParseError::InvalidAddress));
    assert_eq!(parse_ip_address("+F00007F:1F90"), Err(ParseError::InvalidAddress));
    assert_eq!(parse_ip_address("01+0007F:1F90"), Err(ParseError::InvalidAddress));
    assert_eq!(parse_ip_address("0100007F:+1F90"), Ok(([127, 0, 0, 1], 8080)));
    assert_eq!(parse_ip_address("0100007F:XYZ"), Err(ParseError::InvalidNumber));
    assert_eq!(parse_ip_address("0100007F:10000"), Err(ParseError::InvalidNumber));
}

#[test]
fn hex_values_and_pairs() {
    assert_eq!(parse_hex_values("0A"), Ok(10));
    assert_eq!(parse_hex_values("ffffffffffffffff"), Ok(u64::MAX));
    assert_eq!(parse_hex_values("10000000000000000"), Err(ParseError::InvalidNumber));
    assert_eq!(parse_hex_values(""), Err(ParseError::InvalidNumber));
    assert_eq!(parse_hex_value_pairs("00000001:0000001F"), Ok((1, 31)));
    assert_eq!(parse_hex_value_pairs("00000001"), Err(ParseError::MissingValue));
    assert_eq!(parse_hex_value_pairs("zz:01"), Err(ParseError::InvalidNumber));
    assert_eq!(parse_hex_value_pairs("01:"), Err(ParseError::InvalidNumber));
}

#[test]
fn state_and_timer_names() {
    let names = [
        (1, "ESTABLISHED"),
        (2, "SYN_SENT"),
        (3, "SYN_RECV"),
        (4, "FIN_WAIT1"),
        (5, "FIN_WAIT2"),
        (6, "TIME_WAIT"),
        (7, "CLOSE"),
        (8, "CLOSE_WAIT"),
        (9, "LAST_ACK"),
        (10, "LISTEN"),
        (11, "CLOSING"),
        (12, "UNKNOWN"),
        (0, "UNKNOWN"),
    ];
    for (code, name) in names {
        assert_eq!(tcp_state_name(code), name);
    }
    assert_eq!(format_timer(0), "off");
    assert_eq!(format_timer(1), "on");
    assert_eq!(format_timer(2), "keepalive");
    assert_eq!(format_timer(3), "timewait");
    assert_eq!(format_timer(4), "probe");
    assert_eq!(format_timer(9), "unknown");
}

#[test]
fn dotted_address_text() {
    assert_eq!(format_ip(&[127, 0, 0, 1]), "127.0.0.1");
    assert_eq!(format_ip(&[192, 168, 10, 255]), "192.168.10.255");
}

#[test]
fn tcp_table_line_decodes() {
    let text = format!(
        "{}   0: 0100007F:1F90 00000000:0000 0A 00000002:00000003 01:0000001E 00000000  1000        0 12345 1 0000000000000000 100 0 0 10 0\n",
        TCP_HEADER
    );
    let conns = parse_proc_net_tcp(&text);
    assert_eq!(conns.len(), 1);
    let c: TcpStats = conns[0];
    assert_eq!(c.sl, 0);
    assert_eq!(c.local_ip, [127, 0, 0, 1]);
    assert_eq!(c.local_port, 8080);
    assert_eq!(c.remote_ip, [0, 0, 0, 0]);
    assert_eq!(c.remote_port, 0);
    assert_eq!(c.state, 10);
    assert_eq!((c.tx_queue, c.rx_queue), (2, 3));
    assert_eq!((c.timer_active, c.timer_when), (1, 30));
    assert_eq!(c.retransmit_timeout, 0);
    assert_eq!(c.uid, 1000);
    assert_eq!(c.timeout, 0);
    assert_eq!(c.inode, 12345);
}

#[test]
fn tcp_table_skips_bad_lines_only() {
    let text = format!(
        "{}   0: 0100007F:1F90 00000000:0000 0A\n   1: 0100007G:1F90 00000000:0000 0A 00000000:00000000 00:00000000 00000000  1000 0 1 1 0 100 0 0 10 0\n   2: 0100007F:0050 0200A8C0:C350 01 00000000:00000000 00:00000000 00000000  0 0 77 1 0 100 0 0 10 0\n",
        TCP_HEADER
    );
    let conns = parse_proc_net_tcp(&text);
    assert_eq!(conns.len(), 1);
    assert_eq!(conns[0].sl, 2);
    assert_eq!(conns[0].local_port, 80);
    assert_eq!(conns[0].remote_ip, [192, 168, 0, 2]);
    assert_eq!(conns[0].remote_port, 50000);
    assert_eq!(conns[0].inode, 77);
    assert_eq!(parse_proc_net_tcp(TCP_HEADER).len(), 0);
    assert_eq!(parse_proc_net_tcp("").len(), 0);
}

#[test]
fn speed_part_of_a_line() {
    assert_eq!(extract_speed(" bytes: 1 B, packets: 2, speed: 3.00 KB/s "), "3.00 KB/s");
    assert_eq!(extract_speed("no speed here"), "0 B/s");
    assert_eq!(extract_speed("speed: 1 B/s speed: 2 B/s"), "1 B/s");
}

#[test]
fn uptime_as_clock() {
    assert_eq!(parse_uptime("3725.42 7000.00\n"), Some("1:2:5".to_string()));
    assert_eq!(parse_uptime("59.99 1.00"), Some("0:0:59".to_string()));
    assert_eq!(parse_uptime("90061"), Some("25:1:1".to_string()));
    assert_eq!(parse_uptime("abc.5"), None);
    assert_eq!(parse_uptime(""), None);
}
