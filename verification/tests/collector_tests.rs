use std::collections::VecDeque;
use vps_bandwidth_observer::collector::{
    counter_delta, counters_from_tables, cwnd_value_words, field, fping_value_words,
    invalid_counter_error, parse_counter, parse_net_dev, parse_protocol_table,
    parse_tcp_connections, push_bounded, CollectorError, ProtocolTable, RawCounters,
};

fn net_dev(rx: u64, tx: u64) -> String {
    format!(
        "Inter-| Receive | Transmit\n face |bytes packets errs drop fifo frame compressed multicast|bytes packets errs drop fifo colls carrier compressed\n eth0: {rx} 1 0 0 0 0 0 0 {tx} 2 0 0 0 0 0 0\n"
    )
}

fn snmp(retrans: u64) -> String {
    format!("Tcp: ActiveOpens RetransSegs\nTcp: -1 {retrans}\n")
}

const NETSTAT: &str =
    "TcpExt: TCPTimeouts TCPToZeroWindowAdv TCPFromZeroWindowAdv\nTcpExt: 7 8 9\n";

fn message(error: &CollectorError) -> String {
    error.message()
}

#[test]
fn reads_synthetic_proc_counters() {
    let rx_tx = parse_net_dev(&net_dev(1_000, 2_000), "eth0").unwrap();
    let snmp = parse_protocol_table(&snmp(6), "Tcp").unwrap();
    let netstat = parse_protocol_table(NETSTAT, "TcpExt").unwrap();
    let counters = counters_from_tables(rx_tx, &snmp, &netstat, 0).unwrap();
    assert_eq!(counters.rx_bytes, 1_000);
    assert_eq!(counters.tx_bytes, 2_000);
    assert_eq!(counters.retransmitted_segments, 6);
    assert_eq!(counters.tcp_timeouts, 7);
    assert_eq!(counters.to_zero_window_advertisements, 8);
    assert_eq!(counters.from_zero_window_advertisements, 9);
}

#[test]
fn assembled_counters_carry_every_field() {
    let snmp = parse_protocol_table(&snmp(6), "Tcp").unwrap();
    let netstat = parse_protocol_table(NETSTAT, "TcpExt").unwrap();
    assert_eq!(
        counters_from_tables((1, 2), &snmp, &netstat, 42).unwrap(),
        RawCounters {
            rx_bytes: 1,
            tx_bytes: 2,
            retransmitted_segments: 6,
            tcp_timeouts: 7,
            to_zero_window_advertisements: 8,
            from_zero_window_advertisements: 9,
            tcp_connections: 42,
        }
    );
}

#[test]
fn first_missing_table_counter_is_the_error() {
    let snmp = parse_protocol_table("Tcp: ActiveOpens\nTcp: 1\n", "Tcp").unwrap();
    let netstat = parse_protocol_table("TcpExt: A\nTcpExt: 1\n", "TcpExt").unwrap();
    let error = counters_from_tables((0, 0), &snmp, &netstat, 0).unwrap_err();
    assert_eq!(message(&error), "missing proc item: Tcp.RetransSegs");
    let snmp = parse_protocol_table(&snmp_with(5), "Tcp").unwrap();
    let error = counters_from_tables((0, 0), &snmp, &netstat, 0).unwrap_err();
    assert_eq!(message(&error), "missing proc item: TcpExt.TCPTimeouts");
}

fn snmp_with(retrans: u64) -> String {
    snmp(retrans)
}

#[test]
fn net_dev_selects_trimmed_interface_and_ninth_counter() {
    let text = "lo: 5 0 0 0 0 0 0 0 6 0 0 0 0 0 0 0\n  wlan0  :11 0 0 0 0 0 0 0 12 0 0 0 0 0 0 0 99\r\n";
    assert_eq!(parse_net_dev(text, "wlan0").unwrap(), (11, 12));
    assert_eq!(parse_net_dev(text, "lo").unwrap(), (5, 6));
}

#[test]
fn net_dev_errors() {
    let error = parse_net_dev("eth1: 1 2\n", "eth0").unwrap_err();
    assert!(matches!(error, CollectorError::Missing(_)));
    assert_eq!(message(&error), "missing proc item: interface eth0");

    let error = parse_net_dev("eth0: 1 2 3\n", "eth0").unwrap_err();
    assert_eq!(
        message(&error),
        "malformed proc data: interface eth0 has fewer than 16 counters"
    );

    let error = parse_net_dev("eth0: x 0 0 0 0 0 0 0 1 0 0 0 0 0 0 0\n", "eth0").unwrap_err();
    assert_eq!(message(&error), "malformed proc data: invalid counter \"x\" in eth0");

    // the first matching line decides, even when a later one would parse
    let text = "eth0: 1\neth0: 1 0 0 0 0 0 0 0 2 0 0 0 0 0 0 0\n";
    assert!(matches!(parse_net_dev(text, "eth0"), Err(CollectorError::Malformed(_))));
}

#[test]
fn protocol_table_errors() {
    let missing = parse_protocol_table("Udp: A\nUdp: 1\n", "Tcp").unwrap_err();
    assert_eq!(message(&missing), "missing proc item: protocol Tcp");
    let no_row = parse_protocol_table("Tcp: A B\n", "Tcp").unwrap_err();
    assert_eq!(
        message(&no_row),
        "malformed proc data: protocol Tcp is missing its value row"
    );
    let wrong = parse_protocol_table("Tcp: A B\nUdp: 1 2\n", "Tcp").unwrap_err();
    assert_eq!(
        message(&wrong),
        "malformed proc data: protocol Tcp value row has the wrong prefix"
    );
    let count = parse_protocol_table("Tcp: A B\nTcp: 1\n", "Tcp").unwrap_err();
    assert_eq!(
        message(&count),
        "malformed proc data: protocol Tcp header/value count differs"
    );
}

#[test]
fn protocol_table_pairs_and_duplicate_names() {
    let table: ProtocolTable = parse_protocol_table("Ip: X\nIp: 0\nTcp: A B A\nTcp: 1 2 3\n", "Tcp").unwrap();
    assert_eq!(table.entries.len(), 3);
    assert_eq!(field(&table, "B", "Tcp").unwrap(), 2);
    // as in a map built in column order, the last duplicate wins
    assert_eq!(field(&table, "A", "Tcp").unwrap(), 3);
    let error = field(&table, "C", "Tcp").unwrap_err();
    assert_eq!(message(&error), "missing proc item: Tcp.C");
}

#[test]
fn counters_parse_like_str_parse() {
    for text in ["0", "42", "+7", "18446744073709551615", "18446744073709551616", "", "+", "-1", "1a", " 1", "٣"] {
        let ours = parse_counter(text, "ctx").ok();
        let std: Option<u64> = text.parse().ok();
        assert_eq!(ours, std, "{text:?}");
    }
    let error = parse_counter("a\"b", "Tcp").unwrap_err();
    assert_eq!(message(&error), "malformed proc data: invalid counter \"a\\\"b\" in Tcp");
}

#[test]
fn invalid_counter_error_wording() {
    let error = invalid_counter_error("\"7x\"".to_owned(), "TcpExt");
    assert_eq!(message(&error), "malformed proc data: invalid counter \"7x\" in TcpExt");
}

#[test]
fn tcp_connections_from_sockstat() {
    let sockstat = "sockets: used 100\nTCP: inuse 12 orphan 0 tw 3 alloc 15 mem 1\nUDP: inuse 2\n";
    assert_eq!(parse_tcp_connections(sockstat), Some(12));
    assert_eq!(parse_tcp_connections("UDP: inuse 2\n"), None);
    assert_eq!(parse_tcp_connections("TCP: orphan 0 inuse\n"), None);
    assert_eq!(parse_tcp_connections("TCP: inuse x inuse 4\n"), None);
    assert_eq!(parse_tcp_connections("TCP: inuse 1\nTCP: inuse 2\n"), Some(1));
}

#[test]
fn counter_delta_saturates() {
    assert_eq!(counter_delta(10, 4), 6);
    assert_eq!(counter_delta(4, 10), 0);
}

#[test]
fn bounded_push_keeps_newest() {
    let mut history = VecDeque::new();
    for value in 1..=5 {
        push_bounded(&mut history, value, 2);
    }
    assert_eq!(history, VecDeque::from(vec![4, 5]));
    push_bounded(&mut history, 6, 0);
    assert!(history.is_empty());
}

#[test]
fn tool_output_words() {
    assert_eq!(fping_value_words("8.8.8.8 : 10.1 11.2 -"), vec!["10.1", "11.2", "-"]);
    assert_eq!(fping_value_words("no colon here\nhost:1 2\n"), vec!["1", "2"]);
    assert_eq!(
        cwnd_value_words("cubic wscale:7,7 cwnd:10\n bbr cwnd:30"),
        vec!["10", "30"]
    );
}

#[test]
fn messages_of_timestamp_errors() {
    assert_eq!(message(&CollectorError::InvalidTimestamp), "timestamp must be finite");
    assert_eq!(
        message(&CollectorError::NonIncreasingTimestamp),
        "timestamp must increase between samples"
    );
    let read = CollectorError::Read(std::io::Error::new(std::io::ErrorKind::Other, "gone"));
    assert_eq!(message(&read), "cannot read proc data: gone");
}
