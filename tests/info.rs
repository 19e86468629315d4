use cluster_inspect::info::{
    coerce_value, parse_cluster_info, parse_node_info, InfoEntry, InfoReader, InfoValue,
};

fn value_of<'a>(entries: &'a [InfoEntry], key: &str) -> Option<&'a InfoValue> {
    entries.iter().find(|e| e.key == key).map(|e| &e.value)
}

fn is_int(v: Option<&InfoValue>, n: i64) -> bool {
    matches!(v, Some(InfoValue::Int(m)) if *m == n)
}

fn is_text(v: Option<&InfoValue>, s: &str) -> bool {
    matches!(v, Some(InfoValue::Text(t)) if t == s)
}

fn is_float(v: Option<&InfoValue>, s: &str) -> bool {
    matches!(v, Some(InfoValue::Float(t)) if t == s)
}

#[test]
fn flat_coercion() {
    let r = parse_cluster_info("cluster_enabled:1\r\ncluster_state:ok\r\ncluster_slots_ok:3.5\r\n");
    assert_eq!(r.len(), 3);
    assert!(is_int(value_of(&r, "cluster_enabled"), 1));
    assert!(is_text(value_of(&r, "cluster_state"), "ok"));
    assert!(is_float(value_of(&r, "cluster_slots_ok"), "3.5"));
    assert_eq!("3.5".parse::<f64>().ok(), Some(3.5));
}

#[test]
fn flat_keeps_order_and_replaces_in_place() {
    let r = parse_cluster_info("a:1\nb:2\na:x\nno colon here\n\n");
    assert_eq!(r.len(), 2);
    assert_eq!(r[0].key, "a");
    assert!(is_text(Some(&r[0].value), "x"));
    assert_eq!(r[1].key, "b");
}

#[test]
fn flat_trims_and_splits_at_first_colon() {
    let r = parse_cluster_info("  key : value:with:colons  \n");
    assert_eq!(r.len(), 1);
    assert_eq!(r[0].key, "key");
    assert!(is_text(Some(&r[0].value), "value:with:colons"));
}

#[test]
fn flat_reads_hash_lines_as_lines() {
    let r = parse_cluster_info("# Cluster\nx:1\n# a:b\n");
    assert_eq!(r.len(), 2);
    assert!(is_text(value_of(&r, "# a"), "b"));
}

#[test]
fn flat_empty_input() {
    assert!(parse_cluster_info("").is_empty());
    assert!(parse_cluster_info("  \n \t \n").is_empty());
}

#[test]
fn values_are_coerced_in_order() {
    assert!(matches!(coerce_value("42"), InfoValue::Int(42)));
    assert!(matches!(coerce_value("-7"), InfoValue::Int(-7)));
    assert!(matches!(coerce_value("+7"), InfoValue::Int(7)));
    assert!(matches!(coerce_value("9223372036854775807"), InfoValue::Int(i64::MAX)));
    assert!(matches!(coerce_value("9223372036854775808"), InfoValue::Float(_)));
    assert!(matches!(coerce_value("0.5"), InfoValue::Float(_)));
    assert!(matches!(coerce_value("1e3"), InfoValue::Float(_)));
    assert!(matches!(coerce_value(".5"), InfoValue::Float(_)));
    assert!(matches!(coerce_value("5."), InfoValue::Float(_)));
    assert!(matches!(coerce_value("-inf"), InfoValue::Float(_)));
    assert!(matches!(coerce_value("NaN"), InfoValue::Float(_)));
    assert!(matches!(coerce_value("Infinity"), InfoValue::Float(_)));
    assert!(matches!(coerce_value("1.2.3"), InfoValue::Text(_)));
    assert!(matches!(coerce_value("1e"), InfoValue::Text(_)));
    assert!(matches!(coerce_value("e5"), InfoValue::Text(_)));
    assert!(matches!(coerce_value("."), InfoValue::Text(_)));
    assert!(matches!(coerce_value(""), InfoValue::Text(_)));
    assert!(matches!(coerce_value("1.5G"), InfoValue::Text(_)));
}

#[test]
fn float_texts_parse_as_f64() {
    for s in ["0.5", "1e3", ".5", "5.", "-inf", "NaN", "Infinity", "+.5E-3", "9223372036854775808"] {
        assert!(matches!(coerce_value(s), InfoValue::Float(_)), "{}", s);
        assert!(s.parse::<f64>().is_ok(), "{}", s);
    }
    for s in ["1.2.3", "1e", "e5", ".", "", "1.5G", "in", "infinit", "+", "1e+"] {
        assert!(!matches!(coerce_value(s), InfoValue::Float(_)), "{}", s);
        assert!(s.parse::<f64>().is_err() || s.parse::<i64>().is_ok(), "{}", s);
    }
}

#[test]
fn sections_by_header() {
    let text = "# Server\r\nredis_version:7.2.4\r\nuptime_in_seconds:100\r\n\r\n# Clients\r\nconnected_clients:3\r\n# Memory\r\nused_memory_human:1.05M\r\nmem_fragmentation_ratio:1.25\r\n";
    let r = parse_node_info(text);
    assert_eq!(r.len(), 3);
    assert_eq!(r[0].name, "server");
    assert!(is_text(value_of(&r[0].entries, "redis_version"), "7.2.4"));
    assert!(is_int(value_of(&r[0].entries, "uptime_in_seconds"), 100));
    assert_eq!(r[1].name, "clients");
    assert!(is_int(value_of(&r[1].entries, "connected_clients"), 3));
    assert_eq!(r[2].name, "memory");
    assert!(is_text(value_of(&r[2].entries, "used_memory_human"), "1.05M"));
    assert!(is_float(value_of(&r[2].entries, "mem_fragmentation_ratio"), "1.25"));
}

#[test]
fn header_without_entries_is_dropped() {
    let r = parse_node_info("# Server\nx:1\n# Keyspace\n# CPU\nused_cpu_sys:0.5\n# Errors\n");
    assert_eq!(r.len(), 2);
    assert_eq!(r[0].name, "server");
    assert_eq!(r[1].name, "cpu");
    assert!(r.iter().all(|s| !s.entries.is_empty()));
}

#[test]
fn header_name_is_trimmed_and_lowered() {
    let r = parse_node_info("##  Replication  \nrole:master\n");
    assert_eq!(r.len(), 1);
    assert_eq!(r[0].name, "replication");
}

#[test]
fn entries_before_first_header_are_not_kept() {
    let r = parse_node_info("stray:1\n# Server\nx:2\n");
    assert_eq!(r.len(), 1);
    assert_eq!(r[0].name, "server");
    assert_eq!(r[0].entries.len(), 1);
    assert!(is_int(value_of(&r[0].entries, "x"), 2));
}

#[test]
fn repeated_section_replaces_earlier() {
    let r = parse_node_info("# A\nx:1\n# B\ny:2\n# a\nz:3\n");
    assert_eq!(r.len(), 2);
    assert_eq!(r[0].name, "a");
    assert!(is_int(value_of(&r[0].entries, "z"), 3));
    assert!(value_of(&r[0].entries, "x").is_none());
}

#[test]
fn sectioned_empty_input() {
    assert!(parse_node_info("").is_empty());
    assert!(parse_node_info("# Server\n# Clients\n").is_empty());
}

#[test]
fn reader_steps() {
    let mut r = InfoReader::new();
    r.read_entry("stray:1");
    r = r.open_section("server".to_string());
    assert!(r.current.is_empty());
    r.read_entry(" port : 6379 ");
    r.read_entry("no colon");
    r = r.open_section("empty".to_string());
    r = r.open_section("cpu".to_string());
    r.read_entry("used_cpu_sys:1.5");
    let sections = r.finish();
    assert_eq!(sections.len(), 2);
    assert_eq!(sections[0].name, "server");
    assert!(is_int(value_of(&sections[0].entries, "port"), 6379));
    assert_eq!(sections[1].name, "cpu");
    assert!(is_float(value_of(&sections[1].entries, "used_cpu_sys"), "1.5"));
}
