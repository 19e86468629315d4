use cluster_inspect::nodes::{
    classify_role, parse_address, parse_cluster_nodes, parse_node_line, parse_slot_token, Role,
    SlotSpan,
};

const NODE_A: &str = "07c37dfeb235213a872192d90877d0cd55635b91";
const NODE_B: &str = "67ed2db8d677e59ec4a4cefb06858cf2a1a89fa1";

#[test]
fn address_drops_bus_port() {
    let (host, port) = parse_address("127.0.0.1:30001@40001");
    assert_eq!(host, "127.0.0.1");
    assert_eq!(port, 30001);
}

#[test]
fn address_splits_at_last_colon() {
    let (host, port) = parse_address("::1:7000@17000");
    assert_eq!(host, "::1");
    assert_eq!(port, 7000);
}

#[test]
fn address_without_colon_has_port_zero() {
    let (host, port) = parse_address("redis-node@17000");
    assert_eq!(host, "redis-node");
    assert_eq!(port, 0);
}

#[test]
fn address_with_bad_port_has_port_zero() {
    let (host, port) = parse_address("10.0.0.5:http");
    assert_eq!(host, "10.0.0.5");
    assert_eq!(port, 0);
}

#[test]
fn roles_by_substring() {
    assert_eq!(classify_role("myself,master"), Role::Master);
    assert_eq!(classify_role("slave"), Role::Replica);
    assert_eq!(classify_role("handshake,noaddr"), Role::Unknown);
    assert_eq!(classify_role("nomaster"), Role::Master);
    assert_eq!(classify_role("master,slave"), Role::Master);
}

#[test]
fn slot_tokens() {
    assert_eq!(parse_slot_token("0-5460"), Some(SlotSpan { start: 0, end: 5460 }));
    assert_eq!(parse_slot_token("100"), Some(SlotSpan { start: 100, end: 100 }));
    assert_eq!(parse_slot_token("abc"), None);
    assert_eq!(parse_slot_token("1-2-3"), None);
    assert_eq!(parse_slot_token("-5"), None);
    assert_eq!(parse_slot_token("[15495-<-07c37dfeb235213a872192d90877d0cd55635b91]"), None);
    assert_eq!(parse_slot_token("[93->-e7d1eecce10fd6bb5eb35b9f99a514335d9ba9ca]"), None);
}

#[test]
fn end_to_end_master_line() {
    let line = format!(
        "{} 127.0.0.1:30001@40001 master - 0 1694000000000 1 connected 0-5460",
        NODE_A
    );
    let n = parse_node_line(&line).expect("a node line");
    assert_eq!(n.node_id, NODE_A);
    assert_eq!(n.host, "127.0.0.1");
    assert_eq!(n.port, 30001);
    assert_eq!(n.role, Role::Master);
    assert_eq!(n.flags, vec!["master".to_string()]);
    assert_eq!(n.master_id, None);
    assert_eq!(n.ping_sent, "0");
    assert_eq!(n.pong_recv, "1694000000000");
    assert_eq!(n.config_epoch, 1);
    assert_eq!(n.link_state, "connected");
    assert_eq!(n.slots_count, 5461);
    assert_eq!(n.slot_ranges, vec![SlotSpan { start: 0, end: 5460 }]);
}

#[test]
fn replica_line_names_its_master() {
    let line = format!(
        "{} 127.0.0.1:30004@40004 myself,slave {} 0 1694000000000 4 connected",
        NODE_B, NODE_A
    );
    let n = parse_node_line(&line).expect("a node line");
    assert_eq!(n.role, Role::Replica);
    assert_eq!(n.flags, vec!["myself".to_string(), "slave".to_string()]);
    assert_eq!(n.master_id, Some(NODE_A.to_string()));
    assert_eq!(n.slots_count, 0);
    assert!(n.slot_ranges.is_empty());
}

#[test]
fn migrating_slot_adds_nothing() {
    let line = format!(
        "{} 127.0.0.1:30003@40003 master - 0 1694000000000 3 connected 10923-15494 [15495-<-{}] 16383",
        NODE_A, NODE_B
    );
    let n = parse_node_line(&line).expect("a node line");
    assert_eq!(
        n.slot_ranges,
        vec![SlotSpan { start: 10923, end: 15494 }, SlotSpan { start: 16383, end: 16383 }]
    );
    assert_eq!(n.slots_count, 4573);
}

#[test]
fn bad_epoch_and_bad_slot_tokens() {
    let line = "abc 10.0.0.1:6379@16379 master - 0 0 x connected 5-3 zz 7";
    let n = parse_node_line(line).expect("a node line");
    assert_eq!(n.config_epoch, 0);
    assert_eq!(n.slot_ranges, vec![SlotSpan { start: 5, end: 3 }, SlotSpan { start: 7, end: 7 }]);
    assert_eq!(n.slots_count, 0);
}

#[test]
fn short_line_is_not_a_node() {
    assert!(parse_node_line("abc 127.0.0.1:6379@16379 master - 0 0 1").is_none());
    assert!(parse_node_line("").is_none());
    assert!(parse_node_line("   \t ").is_none());
}

#[test]
fn listing_counts_node_lines_only() {
    let text = format!(
        "{a} 127.0.0.1:30001@40001 myself,master - 0 1694000000000 1 connected 0-5460\n\
         \n\
         too few fields here\n\
         {b} 127.0.0.1:30002@40002 master - 0 1694000000001 2 connected 5461-10922\n   \n\
         {b}x 127.0.0.1:30004@40004 slave {a} 0 1694000000002 1 connected\n",
        a = NODE_A,
        b = NODE_B
    );
    let r = parse_cluster_nodes(&text);
    assert_eq!(r.total_nodes, 3);
    assert_eq!(r.nodes.len(), 3);
    assert_eq!(r.nodes[0].port, 30001);
    assert_eq!(r.nodes[1].port, 30002);
    assert_eq!(r.nodes[2].port, 30004);
    assert_eq!(r.nodes[2].role, Role::Replica);
}

#[test]
fn listing_slot_counts_add_up() {
    let text = format!(
        "{a} 127.0.0.1:30001@40001 master - 0 1 1 connected 0-5460\n\
         {b} 127.0.0.1:30002@40002 master - 0 1 2 connected 5461-10922\n\
         {a}c 127.0.0.1:30003@40003 master - 0 1 3 connected 10923-16383 [16383->-{b}]\n",
        a = NODE_A,
        b = NODE_B
    );
    let r = parse_cluster_nodes(&text);
    let total: i128 = r.nodes.iter().map(|n| n.slots_count).sum();
    assert_eq!(total, 16384);
}

#[test]
fn empty_listing() {
    let r = parse_cluster_nodes("");
    assert_eq!(r.total_nodes, 0);
    assert!(r.nodes.is_empty());
    let r = parse_cluster_nodes("  \n\n \t\n");
    assert_eq!(r.total_nodes, 0);
}
