use cluster_inspect::slots::{
    coverage_hundredths, parse_cluster_slots, parse_endpoint, parse_slot_entry, ReplyValue,
    MAX_SLOTS,
};

fn bulk(s: &str) -> ReplyValue {
    ReplyValue::BulkString(s.as_bytes().to_vec())
}

fn endpoint(host: &str, port: i64, id: &str) -> ReplyValue {
    ReplyValue::Array(vec![bulk(host), ReplyValue::Int(port), bulk(id)])
}

fn entry(start: i64, end: i64, nodes: Vec<ReplyValue>) -> ReplyValue {
    let mut parts = vec![ReplyValue::Int(start), ReplyValue::Int(end)];
    parts.extend(nodes);
    ReplyValue::Array(parts)
}

#[test]
fn coverage_full_and_empty() {
    assert_eq!(coverage_hundredths(16384), 10000);
    assert_eq!(coverage_hundredths(0), 0);
}

#[test]
fn coverage_rounds_to_two_decimals() {
    assert_eq!(coverage_hundredths(5461), 3333);
    assert_eq!(coverage_hundredths(8192), 5000);
    assert_eq!(coverage_hundredths(1), 1);
    assert_eq!(coverage_hundredths(82), 50);
    assert_eq!(coverage_hundredths(-1), -1);
    assert_eq!(coverage_hundredths(10923), 6667);
}

#[test]
fn endpoint_from_bulk_and_simple_strings() {
    let e = parse_endpoint(&endpoint("127.0.0.1", 30001, "abc")).expect("an endpoint");
    assert_eq!(e.host, "127.0.0.1");
    assert_eq!(e.port, 30001);
    assert_eq!(e.node_id, "abc");
    let v = ReplyValue::Array(vec![
        ReplyValue::SimpleString("10.0.0.1".to_string()),
        bulk("x"),
        ReplyValue::Nil,
        bulk("extra"),
    ]);
    let e = parse_endpoint(&v).expect("an endpoint");
    assert_eq!(e.host, "10.0.0.1");
    assert_eq!(e.port, 0);
    assert_eq!(e.node_id, "");
}

#[test]
fn endpoint_invalid_utf8_is_replaced() {
    let v = ReplyValue::Array(vec![
        ReplyValue::BulkString(vec![b'a', 0xff, b'b']),
        ReplyValue::Int(1),
        bulk("n"),
    ]);
    let e = parse_endpoint(&v).expect("an endpoint");
    assert_eq!(e.host, "a\u{fffd}b");
}

#[test]
fn endpoint_too_short() {
    assert!(parse_endpoint(&ReplyValue::Array(vec![bulk("h"), ReplyValue::Int(1)])).is_none());
    assert!(parse_endpoint(&bulk("h")).is_none());
}

#[test]
fn entry_with_master_and_replicas() {
    let e = entry(
        0,
        5460,
        vec![
            endpoint("127.0.0.1", 30001, "m"),
            endpoint("127.0.0.1", 30004, "r1"),
            ReplyValue::Int(7),
            ReplyValue::Array(vec![bulk("short")]),
            endpoint("127.0.0.1", 30005, "r2"),
        ],
    );
    let r = parse_slot_entry(&e).expect("a range");
    assert_eq!(r.start_slot, 0);
    assert_eq!(r.end_slot, 5460);
    assert_eq!(r.slots_count, 5461);
    let m = r.master.expect("a master");
    assert_eq!(m.port, 30001);
    assert_eq!(m.node_id, "m");
    assert_eq!(r.replicas.len(), 2);
    assert_eq!(r.replicas[0].node_id, "r1");
    assert_eq!(r.replicas[1].port, 30005);
}

#[test]
fn entry_with_short_master_has_none() {
    let e = entry(10, 19, vec![ReplyValue::Array(vec![bulk("h")])]);
    let r = parse_slot_entry(&e).expect("a range");
    assert!(r.master.is_none());
    assert_eq!(r.slots_count, 10);
}

#[test]
fn malformed_entries_are_skipped() {
    assert!(parse_slot_entry(&ReplyValue::Array(vec![ReplyValue::Int(0), ReplyValue::Int(1)]))
        .is_none());
    assert!(parse_slot_entry(&ReplyValue::Array(vec![
        bulk("0"),
        ReplyValue::Int(1),
        endpoint("h", 1, "n"),
    ]))
    .is_none());
    assert!(parse_slot_entry(&ReplyValue::Int(3)).is_none());
}

#[test]
fn full_distribution() {
    let reply = ReplyValue::Array(vec![
        entry(0, 5460, vec![endpoint("127.0.0.1", 30001, "a")]),
        ReplyValue::Nil,
        entry(5461, 10922, vec![endpoint("127.0.0.1", 30002, "b")]),
        ReplyValue::Array(vec![ReplyValue::Int(1)]),
        entry(10923, 16383, vec![endpoint("127.0.0.1", 30003, "c")]),
    ]);
    let r = parse_cluster_slots(&reply);
    assert_eq!(r.slot_distribution.len(), 3);
    assert_eq!(r.total_slots, 16384);
    assert_eq!(r.max_slots, MAX_SLOTS);
    assert_eq!(r.max_slots, 16384);
    assert_eq!(r.coverage_hundredths, 10000);
    assert_eq!(r.slot_distribution[1].start_slot, 5461);
}

#[test]
fn partial_distribution() {
    let reply = ReplyValue::Array(vec![entry(0, 5460, vec![endpoint("h", 1, "a")])]);
    let r = parse_cluster_slots(&reply);
    assert_eq!(r.total_slots, 5461);
    assert_eq!(r.coverage_hundredths, 3333);
}

#[test]
fn empty_or_non_array_reply() {
    let r = parse_cluster_slots(&ReplyValue::Array(vec![]));
    assert_eq!(r.total_slots, 0);
    assert_eq!(r.coverage_hundredths, 0);
    assert!(r.slot_distribution.is_empty());
    let r = parse_cluster_slots(&ReplyValue::Nil);
    assert_eq!(r.total_slots, 0);
    assert_eq!(r.max_slots, 16384);
}
