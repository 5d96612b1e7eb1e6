use lsm_tree::format::parse_segment;
use lsm_tree::format::encode_segment;
use lsm_tree::format::FormatError;
use lsm_tree::merge::merge_records;
use lsm_tree::read_kv_line;
use lsm_tree::record::Record;

fn rec(k: &str, v: Option<&str>) -> Record {
    Record { key: k.to_string(), value: v.map(|s| s.to_string()) }
}

#[test]
fn test_read_kv_line_live_value() {
    let r = read_kv_line("hello:world").unwrap();
    assert_eq!(r.key, "hello");
    assert_eq!(r.value.as_deref(), Some("world"));
}

#[test]
fn test_read_kv_line_tombstone() {
    let r = read_kv_line("hello:🪦").unwrap();
    assert_eq!(r.key, "hello");
    assert!(r.value.is_none());
}

#[test]
fn test_read_kv_line_empty_fields() {
    let r = read_kv_line(":").unwrap();
    assert_eq!(r.key, "");
    assert_eq!(r.value.as_deref(), Some(""));
}

#[test]
fn test_read_kv_line_rejects_malformed() {
    assert!(matches!(read_kv_line("helloworld"), Err(FormatError::MissingDelimiter)));
    assert!(matches!(read_kv_line(""), Err(FormatError::MissingDelimiter)));
    // a second delimiter inside the value is corruption, never truncated away
    assert!(matches!(read_kv_line("a:b:c"), Err(FormatError::ForbiddenCharacter)));
    // the marker inside a longer value can never have been written legally
    assert!(matches!(read_kv_line("a:x🪦y"), Err(FormatError::ForbiddenCharacter)));
}

#[test]
fn test_encode_segment_exact_bytes() {
    let records = vec![rec("a", Some("1")), rec("b", None)];
    assert_eq!(encode_segment(&records), "a:1\nb:🪦\n");
    let empty: Vec<Record> = Vec::new();
    assert_eq!(encode_segment(&empty), "");
}

#[test]
fn test_parse_segment_round_trip() {
    let records = vec![rec("a", Some("1")), rec("b", None), rec("c", Some("x"))];
    let content = encode_segment(&records);
    let seg = parse_segment(7, &content).unwrap();
    assert_eq!(seg.id, 7);
    assert_eq!(seg.records.len(), 3);
    assert_eq!(seg.records[0].key, "a");
    assert_eq!(seg.records[0].value.as_deref(), Some("1"));
    assert_eq!(seg.records[1].key, "b");
    assert!(seg.records[1].value.is_none());
    assert_eq!(seg.records[2].key, "c");
    assert_eq!(seg.records[2].value.as_deref(), Some("x"));
}

#[test]
fn test_parse_segment_empty_content() {
    let seg = parse_segment(1, "").unwrap();
    assert_eq!(seg.records.len(), 0);
}

#[test]
fn test_parse_segment_rejects_corruption() {
    assert!(matches!(parse_segment(1, "a:1"), Err(FormatError::UnterminatedLine)));
    assert!(matches!(parse_segment(1, "a:1\nnodelim\n"), Err(FormatError::MissingDelimiter)));
    assert!(matches!(parse_segment(1, "b:1\na:2\n"), Err(FormatError::OutOfOrder)));
    // a key may appear at most once per segment
    assert!(matches!(parse_segment(1, "a:1\na:2\n"), Err(FormatError::OutOfOrder)));
}

#[test]
fn test_merge_records_younger_wins_and_drops_tombstones() {
    let older = vec![rec("k1", Some("old")), rec("k2", None)];
    let younger = vec![rec("k1", Some("new")), rec("k3", Some("v3"))];
    let merged = merge_records(older, younger);
    assert_eq!(merged.len(), 2);
    assert_eq!(merged[0].key, "k1");
    assert_eq!(merged[0].value.as_deref(), Some("new"));
    assert_eq!(merged[1].key, "k3");
    assert_eq!(merged[1].value.as_deref(), Some("v3"));
}

#[test]
fn test_merge_records_interleaves_in_order() {
    let older = vec![rec("a", Some("1")), rec("c", Some("3"))];
    let younger = vec![rec("b", Some("2")), rec("d", Some("4"))];
    let merged = merge_records(older, younger);
    let keys: Vec<&str> = merged.iter().map(|r| r.key.as_str()).collect();
    assert_eq!(keys, vec!["a", "b", "c", "d"]);
}
