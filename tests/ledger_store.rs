use web_search::ledger::{Ledger, VersionRecord};
use web_search::store::parse_ledger;

fn record(cv: &str, date: &str) -> VersionRecord {
    VersionRecord {
        client_version: cv.to_string(),
        build_date: date.to_string(),
        build_version: None,
        web_player: None,
    }
}

fn sample() -> Ledger {
    let mut ledger = Ledger::new();
    ledger.insert("1.2.3.4".to_string(), record("1.2.3.4.g1", "d1"));
    let mut r = record("2.0.1.7", "d2");
    r.build_version = Some("b2".to_string());
    r.web_player = Some("https://x/web-player.js".to_string());
    ledger.insert("2.0.1.7".to_string(), r);
    ledger.insert("1.10.0.0".to_string(), record("1.10.0.0", "d3"));
    ledger
}

#[test]
fn contains_after_insert() {
    let ledger = sample();
    assert!(ledger.contains(&"2.0.1.7".to_string()));
    assert!(!ledger.contains(&"2.0.1".to_string()));
    assert_eq!(ledger.get(&"1.2.3.4".to_string()).unwrap().build_date, "d1");
    assert!(ledger.get(&"9".to_string()).is_none());
}

#[test]
fn entries_come_out_greatest_first() {
    let keys: Vec<String> = sample().sorted_entries().into_iter().map(|e| e.0).collect();
    assert_eq!(keys, vec!["2.0.1.7", "1.10.0.0", "1.2.3.4"]);
}

#[test]
fn empty_ledger_text() {
    assert_eq!(Ledger::new().to_json_text(), "{\n}");
}

#[test]
fn ledger_text_is_pretty_and_sorted() {
    let expected = "{\n  \"2.0.1.7\": {\n    \"buildDate\": \"d2\",\n    \"buildVersion\": \"b2\",\n    \"clientVersion\": \"2.0.1.7\",\n    \"webPlayer\": \"https://x/web-player.js\"\n  },\n  \"1.10.0.0\": {\n    \"buildDate\": \"d3\",\n    \"clientVersion\": \"1.10.0.0\"\n  },\n  \"1.2.3.4\": {\n    \"buildDate\": \"d1\",\n    \"clientVersion\": \"1.2.3.4.g1\"\n  }\n}";
    assert_eq!(sample().to_json_text(), expected);
}

#[test]
fn strings_are_escaped() {
    let mut ledger = Ledger::new();
    ledger.insert("1".to_string(), record("a\"b\\c\nd\u{1}", "t\te"));
    assert_eq!(
        ledger.to_json_text(),
        "{\n  \"1\": {\n    \"buildDate\": \"t\\te\",\n    \"clientVersion\": \"a\\\"b\\\\c\\nd\\u0001\"\n  }\n}"
    );
}

#[test]
fn duplicate_keys_are_refused() {
    let entries = vec![
        ("1.0".to_string(), record("1.0", "a")),
        ("1.0".to_string(), record("1.0", "b")),
    ];
    assert!(Ledger::from_entries(entries).is_none());
}

fn reload(text: &str) -> Ledger {
    parse_ledger(text).unwrap()
}

#[test]
fn ledger_text_that_is_no_object_is_refused() {
    assert!(parse_ledger("[1, 2]").is_none());
    assert!(parse_ledger("not json").is_none());
}

#[test]
fn ledger_member_without_required_fields_is_refused() {
    assert!(parse_ledger("{\"1.0\": {\"clientVersion\": \"1.0\"}}").is_none());
    assert!(parse_ledger("{\"1.0\": \"1.0\"}").is_none());
    assert!(parse_ledger("{\"1.0\": {\"clientVersion\": \"1.0\", \"buildDate\": 5}}").is_none());
}

#[test]
fn ledger_text_is_read_with_optional_fields() {
    let ledger = parse_ledger(
        "{\"1.0\": {\"clientVersion\": \"1.0.7\", \"buildDate\": \"d\", \"webPlayer\": \"w.js\", \"buildVersion\": 3}}",
    )
    .unwrap();
    let r = ledger.get(&"1.0".to_string()).unwrap();
    assert_eq!(r.client_version, "1.0.7");
    assert_eq!(r.build_date, "d");
    assert_eq!(r.build_version, None);
    assert_eq!(r.web_player.as_deref(), Some("w.js"));
    assert_eq!(parse_ledger("{}").unwrap().to_json_text(), "{\n}");
}

#[test]
fn saved_ledger_reloads_identically() {
    let ledger = sample();
    let text = ledger.to_json_text();
    let again = reload(&text);
    for key in ["1.2.3.4", "2.0.1.7", "1.10.0.0"] {
        let a = ledger.get(&key.to_string()).unwrap();
        let b = again.get(&key.to_string()).unwrap();
        assert_eq!(a.client_version, b.client_version);
        assert_eq!(a.build_date, b.build_date);
        assert_eq!(a.build_version, b.build_version);
        assert_eq!(a.web_player, b.web_player);
    }
    assert_eq!(again.sorted_entries().len(), 3);
    assert_eq!(again.to_json_text(), text);
}
