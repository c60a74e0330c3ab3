use godworks_broker::doc::Json;
use godworks_broker::wal::{
    decode_wal_line, is_known_wal_event_kind, read_wal_events, wal_event_kind,
    wal_v1_envelope_line, wal_v1_header_line, WalLine,
};

fn j(text: &str) -> Json {
    Json::parse(text).unwrap()
}

fn sealed(text: &str) -> String {
    wal_v1_envelope_line(&j(text))
}

fn corrupt() -> String {
    "{\"_c\":0,\"_d\":\"{\\\"kind\\\":\\\"write\\\"}\"}".to_string()
}

#[test]
fn shared_wal_reader_counts_unknown_kinds() {
    let lines = vec![
        wal_v1_header_line(),
        sealed(r#"{"kind":"register","entity":"e1"}"#),
        sealed(r#"{"kind":"future_transition","entity":"e1"}"#),
    ];
    let read = read_wal_events(Some(&lines), None);
    assert!(read.report.error.is_none());
    assert_eq!(read.events.len(), 2);
    assert_eq!(read.report.unknown_kind_count, 1);
    assert_eq!(read.report.unknown_kinds.get("future_transition").copied(), Some(1));
}

#[test]
fn shared_wal_reader_truncates_corrupt_tail() {
    let lines = vec![
        wal_v1_header_line(),
        sealed(r#"{"kind":"register","entity":"e1"}"#),
        corrupt(),
    ];
    let read = read_wal_events(Some(&lines), None);
    assert!(read.report.error.is_none());
    assert_eq!(read.events.len(), 1);
    assert_eq!(read.report.corrupt_tail_record_count, 1);
    assert!(read.report.truncated_tail_bytes > 0);
}

#[test]
fn shared_wal_reader_refuses_mid_corruption() {
    let lines = vec![
        wal_v1_header_line(),
        sealed(r#"{"kind":"register","entity":"e1"}"#),
        corrupt(),
        sealed(r#"{"kind":"write","entity":"e1"}"#),
    ];
    let read = read_wal_events(Some(&lines), None);
    assert!(read.report.error.is_some());
    assert!(read.events.is_empty());
}

#[test]
fn shared_wal_reader_refuses_future_version() {
    let lines = vec![
        j(r#"{"kind":"wal_header","wal_version":99}"#).text(),
        sealed(r#"{"kind":"register","entity":"e1"}"#),
    ];
    let read = read_wal_events(Some(&lines), None);
    assert_eq!(read.report.wal_version, 99);
    assert!(read.report.error.unwrap_or_default().contains("VersionReject"));
    assert!(read.events.is_empty());
}

#[test]
fn shared_wal_reader_honors_restore_offset() {
    let header = wal_v1_header_line();
    let first = sealed(r#"{"kind":"register","entity":"e1"}"#);
    let second = sealed(r#"{"kind":"register","entity":"e2"}"#);
    let offset_after_first = (header.len() + 1 + first.len() + 1) as u64;
    let lines = vec![header, first, second];
    let read = read_wal_events(Some(&lines), Some(offset_after_first));
    assert!(read.report.error.is_none());
    assert_eq!(read.events.len(), 1);
    assert_eq!(read.report.selected_event_count, 1);
    assert_eq!(read.events[0].get_str("entity"), Some("e1"));
}

#[test]
fn a_sealed_line_decodes_to_its_event() {
    let ev = j(r#"{"kind":"write","entity":"é","value":[1.5,-0.0,null,true]}"#);
    let line = wal_v1_envelope_line(&ev);
    match decode_wal_line(&line, true) {
        WalLine::Event(back) => assert_eq!(back.text(), ev.text()),
        WalLine::Corrupt => panic!("a sealed line is not corrupt"),
    }
    assert!(matches!(decode_wal_line(&corrupt(), true), WalLine::Corrupt));
    assert!(matches!(decode_wal_line("{\"kind\":\"x\"}", true), WalLine::Corrupt));
    assert!(matches!(decode_wal_line("{\"kind\":\"x\"}", false), WalLine::Event(_)));
    assert!(matches!(decode_wal_line("{\"kind\":", false), WalLine::Corrupt));
}

#[test]
fn a_bare_log_is_read_leniently() {
    let lines = vec![
        "{\"kind\":\"register\",\"entity\":\"e1\"}".to_string(),
        "half a line".to_string(),
        "{\"kind\":\"register\",\"entity\":\"e2\"}".to_string(),
    ];
    let read = read_wal_events(Some(&lines), None);
    assert!(read.report.error.is_none());
    assert_eq!(read.report.wal_version, 0);
    assert_eq!(read.events.len(), 2);
}

#[test]
fn no_log_is_an_empty_log() {
    let read = read_wal_events(None, None);
    assert!(read.report.error.is_none());
    assert!(read.events.is_empty());
    assert_eq!(read.report.wal_version, 1);
}

#[test]
fn kinds_are_told_apart() {
    assert!(is_known_wal_event_kind("register"));
    assert!(is_known_wal_event_kind("transfer"));
    assert!(!is_known_wal_event_kind("future_transition"));
    assert_eq!(wal_event_kind(&j(r#"{"kind":"write"}"#)), "write");
    assert_eq!(wal_event_kind(&j(r#"{"entity":"e1"}"#)), "");
}

#[test]
fn wal_inspect_reports_unknown_kinds_without_refusing_clean_wal() {
    let lines = vec![
        wal_v1_header_line(),
        sealed(r#"{"kind":"register","entity":"e1"}"#),
        sealed(r#"{"kind":"future_transition","entity":"e1"}"#),
    ];
    let report = read_wal_events(Some(&lines), None).report;
    assert_eq!(report.selected_event_count, 2);
    assert_eq!(report.unknown_kind_count, 1);
    assert_eq!(report.unknown_kinds.get("future_transition").copied(), Some(1));
    assert!(report.error.is_none());
}

#[test]
fn wal_inspect_refuses_mid_corruption() {
    let lines = vec![
        wal_v1_header_line(),
        sealed(r#"{"kind":"register","entity":"e1"}"#),
        corrupt(),
        sealed(r#"{"kind":"write","entity":"e1"}"#),
    ];
    let report = read_wal_events(Some(&lines), None).report;
    assert!(report.error.unwrap_or_default().contains("RestoreIntegrityError"));
}

#[test]
fn a_log_round_trips_line_by_line() {
    let events = [
        r#"{"entity":"e1","kind":"register"}"#,
        r#"{"comp":"hp","entity":"e1","kind":"write","value":7}"#,
        r#"{"entity":"e1","kind":"delete_tombstone"}"#,
    ];
    let mut lines = vec![wal_v1_header_line()];
    for e in events {
        lines.push(sealed(e));
    }
    let read = read_wal_events(Some(&lines), None);
    let texts: Vec<String> = read.events.iter().map(|e| e.text()).collect();
    assert_eq!(texts, events);
    assert_eq!(read.report.truncated_tail_bytes, 0);
    assert_eq!(read.report.wal_version, 1);
}

#[test]
fn a_torn_tail_costs_only_the_tail() {
    let first = sealed(r#"{"kind":"register","entity":"e1"}"#);
    let whole = sealed(r#"{"kind":"register","entity":"e2"}"#);
    let torn = whole[..whole.len() - 3].to_string();
    let lines = vec![wal_v1_header_line(), first.clone(), torn.clone()];
    let read = read_wal_events(Some(&lines), None);
    assert!(read.report.error.is_none());
    assert_eq!(read.events.len(), 1);
    assert_eq!(read.report.truncated_tail_bytes as usize, torn.len() + 1);
    let good = wal_v1_header_line().len() + 1 + first.len() + 1;
    assert_eq!(read.report.recoverable_prefix_bytes as usize, good);
}

#[test]
fn the_checksum_is_compared_in_full() {
    let good = r#"{"_c":3421780262,"_d":"123456789"}"#;
    match decode_wal_line(good, true) {
        WalLine::Event(ev) => assert_eq!(ev.text(), "123456789"),
        WalLine::Corrupt => panic!("the checksum is right"),
    }
    let wrapped = r#"{"_c":7716747558,"_d":"123456789"}"#;
    assert!(matches!(decode_wal_line(wrapped, true), WalLine::Corrupt));
    assert!(matches!(decode_wal_line(wrapped, false), WalLine::Corrupt));
}
