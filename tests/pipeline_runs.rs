use base64::Engine;
use web_search::decode::{decode_config, DecodeError};
use web_search::extract::{extract_config_blob, names_web_player, trim_text};
use web_search::ledger::Ledger;
use web_search::pipeline::{process_page, Report};

fn encode(text: &str) -> String {
    base64::engine::general_purpose::STANDARD.encode(text.as_bytes())
}

fn page(blob: &str) -> String {
    format!(
        "<html><head><script src=\"/vendor.js\"></script>\
         <script src=\"https://cdn.example.com/web-player/web-player.3f2a.js\"></script>\
         <script id=\"appServerConfig\" type=\"text/plain\">\n  {}\n</script></head><body></body></html>",
        blob
    )
}

#[test]
fn page_without_config_tag_reports_not_found() {
    let html = "<html><body><p>nothing here</p></body></html>";
    let (blob, player) = extract_config_blob(html);
    assert!(blob.is_none());
    assert!(player.is_none());
    let mut ledger = Ledger::new();
    let report = process_page(html, &mut ledger);
    assert!(!report.is_success());
    assert_eq!(
        report.to_json(),
        "{\"error\":\"appServerConfig tag not found\",\"success\":false}"
    );
}

#[test]
fn whitespace_only_config_reports_empty() {
    let html = "<script id=\"appServerConfig\" type=\"text/plain\">  \n\t </script>";
    let (blob, _) = extract_config_blob(html);
    assert_eq!(blob.as_deref(), Some(""));
    let mut ledger = Ledger::new();
    let report = process_page(html, &mut ledger);
    assert_eq!(
        report.to_json(),
        "{\"error\":\"Base64 content is empty\",\"success\":false}"
    );
}

#[test]
fn config_is_found_and_trimmed() {
    let blob = encode("{\"clientVersion\":\"1.2.3\",\"buildDate\":\"2024-05-01\"}");
    let (found, player) = extract_config_blob(&page(&blob));
    assert_eq!(found, Some(blob));
    assert_eq!(
        player.as_deref(),
        Some("https://cdn.example.com/web-player/web-player.3f2a.js")
    );
}

#[test]
fn config_without_type_is_found() {
    let html = "<div><script id=\"appServerConfig\">abc=</script></div>";
    assert_eq!(extract_config_blob(html).0.as_deref(), Some("abc="));
}

#[test]
fn config_on_other_element_is_found_by_id() {
    let html = "<div id=\"appServerConfig\"> xyz </div>";
    assert_eq!(extract_config_blob(html).0.as_deref(), Some("xyz"));
}

#[test]
fn pattern_is_the_fallback() {
    let html = "<!-- <script type=\"a\" id=\"appServerConfig\"> QUJD </script> -->";
    assert_eq!(extract_config_blob(html).0.as_deref(), Some("QUJD"));
}

#[test]
fn web_player_needs_marker_and_extension() {
    assert!(names_web_player("https://x/web-player/web-player.abc.js"));
    assert!(!names_web_player("https://x/web-player/web-player.abc.css"));
    assert!(!names_web_player("https://x/player.js"));
    assert!(!names_web_player(""));
}

#[test]
fn decode_reads_the_three_fields() {
    let blob = encode(
        "{\"clientVersion\":\"1.2.3.4.5\",\"buildDate\":\"2024-05-01\",\"buildVersion\":\"b77\",\"other\":1}",
    );
    let fields = decode_config(&blob).ok().unwrap();
    assert_eq!(fields.client_version, "1.2.3.4.5");
    assert_eq!(fields.build_date, "2024-05-01");
    assert_eq!(fields.build_version.as_deref(), Some("b77"));
}

#[test]
fn non_string_build_version_is_absent() {
    let blob = encode("{\"clientVersion\":\"1.2\",\"buildDate\":\"d\",\"buildVersion\":12}");
    let fields = decode_config(&blob).ok().unwrap();
    assert_eq!(fields.build_version, None);
}

#[test]
fn decode_errors_come_in_stage_order() {
    assert_eq!(decode_config("").err(), Some(DecodeError::EmptyBlob));
    assert_eq!(decode_config("!!not base64!!").err(), Some(DecodeError::Base64));
    let bad_utf8 = base64::engine::general_purpose::STANDARD.encode([0xffu8, 0xfe, 0x41]);
    assert_eq!(decode_config(&bad_utf8).err(), Some(DecodeError::Utf8));
    assert_eq!(decode_config(&encode("[1, 2]")).err(), Some(DecodeError::Json));
    assert_eq!(decode_config(&encode("not json")).err(), Some(DecodeError::Json));
    assert_eq!(
        decode_config(&encode("{\"clientVersion\":\"1.2\"}")).err(),
        Some(DecodeError::MissingField)
    );
    assert_eq!(
        decode_config(&encode("{\"clientVersion\":3,\"buildDate\":\"d\"}")).err(),
        Some(DecodeError::MissingField)
    );
}

#[test]
fn error_messages() {
    assert_eq!(DecodeError::EmptyBlob.message(), "Base64 content is empty");
    assert_eq!(
        DecodeError::MissingField.message(),
        "clientVersion or buildDate not found"
    );
}

#[test]
fn valid_config_gives_success() {
    let blob = encode("{\"clientVersion\":\"9.0\",\"buildDate\":\"2025-01-02\"}");
    let mut ledger = Ledger::new();
    let report = process_page(&page(&blob), &mut ledger);
    assert!(report.is_success());
    assert!(report.is_new());
}

#[test]
fn same_key_twice_is_new_then_known() {
    let first = encode("{\"clientVersion\":\"1.2.3.4.abc\",\"buildDate\":\"2024-05-01\",\"buildVersion\":\"b1\"}");
    let second = encode("{\"clientVersion\":\"1.2.3.4.def\",\"buildDate\":\"2024-06-01\"}");
    let mut ledger = Ledger::new();
    let r1 = process_page(&page(&first), &mut ledger);
    assert_eq!(
        r1.to_json(),
        "{\"data\":{\"buildDate\":\"2024-05-01\",\"buildVersion\":\"b1\",\"clientVersion\":\"1.2.3.4.abc\",\
         \"webPlayer\":\"https://cdn.example.com/web-player/web-player.3f2a.js\"},\"is_new\":true,\
         \"key\":\"1.2.3.4\",\"message\":\"New version 1.2.3.4.abc detected and saved\",\"success\":true}"
    );
    let r2 = process_page(&page(&second), &mut ledger);
    assert!(r2.is_success());
    assert!(!r2.is_new());
    assert_eq!(
        r2.to_json(),
        "{\"is_new\":false,\"key\":\"1.2.3.4\",\"message\":\"Version 1.2.3.4 already exists\",\"success\":true}"
    );
    let stored = ledger.get(&"1.2.3.4".to_string()).unwrap();
    assert_eq!(stored.build_date, "2024-05-01");
}

#[test]
fn failed_decode_leaves_ledger_alone() {
    let mut ledger = Ledger::new();
    let report = process_page(&page("%%%"), &mut ledger);
    assert!(!report.is_success());
    assert_eq!(ledger.to_json_text(), "{\n}");
}

#[test]
fn failure_report_quotes_its_message() {
    let report = Report::failure("Failed to save versions: \"disk\"".to_string());
    assert_eq!(
        report.to_json(),
        "{\"error\":\"Failed to save versions: \\\"disk\\\"\",\"success\":false}"
    );
}

#[test]
fn trim_removes_unicode_white_space_at_both_ends() {
    assert_eq!(trim_text(" \t\u{3000}a b\u{a0}\n"), "a b");
    assert_eq!(trim_text("\u{2003}\r\n"), "");
    assert_eq!(trim_text("x"), "x");
    assert_eq!(trim_text(""), "");
}
