use tool_bridge::ports::{list_port_usage, parse_addr_port, parse_lsof};

#[test]
fn addr_port_reads_plain_pairs() {
    let (a, p) = parse_addr_port("127.0.0.1:80").unwrap();
    assert_eq!(a, "127.0.0.1");
    assert_eq!(p, 80);
    let (a2, p2) = parse_addr_port("*:8080").unwrap();
    assert_eq!(a2, "*");
    assert_eq!(p2, 8080);
}

#[test]
fn addr_port_reads_bracketed_addresses() {
    let (a, p) = parse_addr_port("[::1]:443").unwrap();
    assert_eq!(a, "::1]");
    assert_eq!(p, 443);
}

#[test]
fn addr_port_trims_its_input() {
    let (a, p) = parse_addr_port("  10.0.0.1:22 \n").unwrap();
    assert_eq!(a, "10.0.0.1");
    assert_eq!(p, 22);
}

#[test]
fn addr_port_rejects_garbage() {
    assert!(parse_addr_port("").is_none());
    assert!(parse_addr_port("   ").is_none());
    assert!(parse_addr_port("no-colon").is_none());
    assert!(parse_addr_port("1.2.3.4:99999").is_none());
    assert!(parse_addr_port("1.2.3.4:").is_none());
    assert!(parse_addr_port("host:port").is_none());
}

const LSOF_TCP: &str = "COMMAND   PID USER   FD   TYPE DEVICE SIZE/OFF NODE NAME\n\
rapportd  595 alice    8u  IPv4 0x1234      0t0  TCP *:50277 (LISTEN)\n\
node     1200 alice   23u  IPv6 0x5678      0t0  TCP [::1]:3000 (LISTEN)\n\
weird     777 alice    3u  IPv4 0x9abc      0t0  XYZ *:1 (LISTEN)\n\
short 1\n";

#[test]
fn lsof_rows_come_from_socket_lines() {
    let rows = parse_lsof(LSOF_TCP);
    assert_eq!(rows.len(), 2);
    assert_eq!(rows[0].protocol, "TCP");
    assert_eq!(rows[0].local_addr, "*");
    assert_eq!(rows[0].local_port, 50277);
    assert_eq!(rows[0].pid, Some(595));
    assert_eq!(rows[0].process.as_deref(), Some("rapportd"));
    assert!(rows[0].state.is_none());
    assert_eq!(rows[1].local_addr, "::1]");
    assert_eq!(rows[1].local_port, 3000);
    assert_eq!(rows[1].pid, Some(1200));
}

#[test]
fn lsof_header_is_skipped_even_when_it_parses() {
    // only the header: no rows at all
    let rows = parse_lsof("COMMAND PID TCP *:80\n");
    assert!(rows.is_empty());
    assert!(parse_lsof("").is_empty());
}

#[test]
fn lsof_connection_lines_keep_the_local_side() {
    let out = "HEADER\n\
curl  900 alice  5u IPv4 0x1 0t0 TCP 192.168.0.2:54321->93.184.216.34:443 (ESTABLISHED)\n";
    let rows = parse_lsof(out);
    assert_eq!(rows.len(), 1);
    assert_eq!(rows[0].local_addr, "192.168.0.2");
    assert_eq!(rows[0].local_port, 54321);
}

#[test]
fn lsof_nonnumeric_pid_becomes_none() {
    let out = "HEADER\nproc abc 4u IPv4 0x1 0t0 UDP *:5353\n";
    let rows = parse_lsof(out);
    assert_eq!(rows.len(), 1);
    assert_eq!(rows[0].pid, None);
    assert_eq!(rows[0].protocol, "UDP");
}

#[test]
fn listing_merges_and_deduplicates() {
    let tcp = "HEADER\n\
a 1 x 4u IPv4 0x1 0t0 TCP *:80 (LISTEN)\n\
a 1 x 5u IPv4 0x2 0t0 TCP *:80 (LISTEN)\n";
    let udp = "HEADER\n\
b 2 x 6u IPv4 0x3 0t0 UDP *:80\n";
    let rows = list_port_usage(tcp, udp);
    // the duplicate TCP row collapses; the UDP row differs in key
    assert_eq!(rows.len(), 2);
    assert_eq!(rows[0].protocol, "TCP");
    assert_eq!(rows[0].pid, Some(1));
    assert_eq!(rows[1].protocol, "UDP");
    assert_eq!(rows[1].pid, Some(2));
}

#[test]
fn ss_rows_come_from_socket_lines() {
    let out = "tcp  LISTEN 0 128 0.0.0.0:22 0.0.0.0:* users:((\"sshd\",pid=800,fd=3))\n\
udp  UNCONN 0 0 0.0.0.0:68 0.0.0.0:*\n\
udp  UNCONN 0 0 127.0.0.54%lo:53 0.0.0.0:*\n\
nl   UNCONN 0 0 9:1 *\n\
short line\n";
    let rows = tool_bridge::ports::parse_ss(out);
    // the interface-scoped address loses its port at the '%' cut and is
    // dropped, like the other non-socket lines
    assert_eq!(rows.len(), 2);
    assert_eq!(rows[0].protocol, "TCP");
    assert_eq!(rows[0].local_addr, "0.0.0.0");
    assert_eq!(rows[0].local_port, 22);
    assert_eq!(rows[0].state.as_deref(), Some("LISTEN"));
    assert_eq!(rows[0].pid, Some(800));
    assert_eq!(rows[0].process.as_deref(), Some("sshd"));
    assert_eq!(rows[1].protocol, "UDP");
    assert_eq!(rows[1].local_addr, "0.0.0.0");
    assert_eq!(rows[1].local_port, 68);
    assert_eq!(rows[1].pid, None);
    assert_eq!(rows[1].process, None);
}

#[test]
fn ss_process_column_survives_extra_fields() {
    let out = "tcp LISTEN 0 4096 [::1]:631 [::]:* users:((\"cupsd\",pid=123,fd=7),(\"other\",pid=9,fd=8))\n";
    let rows = tool_bridge::ports::parse_ss(out);
    assert_eq!(rows.len(), 1);
    assert_eq!(rows[0].local_addr, "::1]");
    assert_eq!(rows[0].local_port, 631);
    assert_eq!(rows[0].pid, Some(123));
    assert_eq!(rows[0].process.as_deref(), Some("cupsd"));
}

#[test]
fn netstat_rows_come_from_socket_lines() {
    let out = "Active Connections\n\n\
  Proto  Local Address          Foreign Address        State           PID\n\
  TCP    0.0.0.0:135            0.0.0.0:0              LISTENING       1096\n\
  UDP    [::1]:1900             *:*                                    2468\n\
  XYZ    1.2.3.4:5              *:*                                    7\n";
    let rows = tool_bridge::ports::parse_netstat(out);
    assert_eq!(rows.len(), 2);
    assert_eq!(rows[0].protocol, "TCP");
    assert_eq!(rows[0].local_addr, "0.0.0.0");
    assert_eq!(rows[0].local_port, 135);
    assert_eq!(rows[0].state.as_deref(), Some("LISTENING"));
    assert_eq!(rows[0].pid, Some(1096));
    assert!(rows[0].process.is_none());
    assert_eq!(rows[1].protocol, "UDP");
    assert_eq!(rows[1].local_addr, "::1]");
    assert_eq!(rows[1].local_port, 1900);
    // the UDP line has no state column; the fourth field is the pid
    assert_eq!(rows[1].state, None);
    assert_eq!(rows[1].pid, Some(2468));
}

#[test]
fn listing_is_sorted_by_port_protocol_addr_pid() {
    let tcp = "HEADER\n\
b 9 x 4u IPv4 0x1 0t0 TCP 10.0.0.2:80 (LISTEN)\n\
a 3 x 4u IPv4 0x2 0t0 TCP 10.0.0.1:80 (LISTEN)\n\
c 1 x 4u IPv4 0x3 0t0 TCP *:22 (LISTEN)\n";
    let udp = "HEADER\n\
d 2 x 5u IPv4 0x4 0t0 UDP 10.0.0.1:80\n";
    let rows = tool_bridge::ports::system_port_list(tcp, udp);
    assert_eq!(rows.len(), 4);
    assert_eq!(rows[0].local_port, 22);
    assert_eq!((rows[1].protocol.as_str(), rows[1].local_addr.as_str()), ("TCP", "10.0.0.1"));
    assert_eq!((rows[2].protocol.as_str(), rows[2].local_addr.as_str()), ("TCP", "10.0.0.2"));
    assert_eq!(rows[3].protocol, "UDP");
}

#[test]
fn sort_orders_equal_addresses_by_pid() {
    let mk = |pid: Option<u32>| tool_bridge::ports::PortUsage {
        protocol: "TCP".to_string(),
        local_addr: "*".to_string(),
        local_port: 80,
        state: None,
        pid,
        process: None,
    };
    let rows = vec![mk(Some(9)), mk(None), mk(Some(4))];
    let sorted = tool_bridge::ports::sort_port_usage(&rows);
    assert_eq!(sorted.len(), 3);
    assert_eq!(sorted[0].pid, None);
    assert_eq!(sorted[1].pid, Some(4));
    assert_eq!(sorted[2].pid, Some(9));
}

#[test]
fn tasklist_entries_come_from_quoted_lines() {
    let out = "\"System Idle Process\",\"0\",\"Services\",\"0\",\"8 K\"\n\
\"svchost.exe\",\"1096\",\"Services\",\"0\",\"9,812 K\"\n\
INFO: no tasks running\n";
    let entries = tool_bridge::ports::parse_tasklist(out);
    assert_eq!(entries.len(), 2);
    assert_eq!(entries[0], (0, "System Idle Process".to_string()));
    assert_eq!(entries[1], (1096, "svchost.exe".to_string()));
}

#[test]
fn enrichment_fills_known_pids_and_keeps_the_rest() {
    let rows = vec![
        tool_bridge::ports::PortUsage {
            protocol: "TCP".to_string(),
            local_addr: "0.0.0.0".to_string(),
            local_port: 135,
            state: Some("LISTENING".to_string()),
            pid: Some(1096),
            process: None,
        },
        tool_bridge::ports::PortUsage {
            protocol: "UDP".to_string(),
            local_addr: "*".to_string(),
            local_port: 5353,
            state: None,
            pid: Some(7),
            process: None,
        },
    ];
    let entries = vec![
        (1096, "old.exe".to_string()),
        (1096, "svchost.exe".to_string()),
    ];
    let enriched = tool_bridge::ports::enrich_with_process_names(&rows, &entries);
    // the later entry for a pid wins, as repeated map insertion would have it
    assert_eq!(enriched[0].process.as_deref(), Some("svchost.exe"));
    assert_eq!(enriched[1].process, None);
    assert_eq!(enriched[1].local_port, 5353);
}
