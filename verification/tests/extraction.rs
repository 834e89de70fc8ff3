use status_table::batch::is_xml_file_name;
use status_table::batch::process_batch;
use status_table::batch::InputDocument;
use status_table::extract::extract;
use status_table::extract::select_code;
use status_table::extract::ExtractError;
use status_table::text::is_digits_only;

#[test]
fn status_from_last_row() {
    let xml = "<root>\
        <StatusHistoryRow><status>OPEN</status></StatusHistoryRow>\
        <StatusHistoryRow><status>CLOSED</status></StatusHistoryRow>\
        </root>";
    let r = extract(xml, "file.xml").unwrap();
    assert_eq!(r.status, "CLOSED");
    assert_eq!(r.source_name, "file.xml");
}

#[test]
fn status_found_anywhere_in_last_row_subtree() {
    let xml = "<root>\
        <StatusHistoryRow><status>OLD</status></StatusHistoryRow>\
        <StatusHistoryRow><info><status>NEW</status></info></StatusHistoryRow>\
        </root>";
    let r = extract(xml, "f.xml").unwrap();
    assert_eq!(r.status, "NEW");
}

#[test]
fn rows_found_anywhere_in_tree() {
    let xml = "<root><a><StatusHistoryRow><status>A</status></StatusHistoryRow></a>\
        <b><c><StatusHistoryRow><status>B</status></StatusHistoryRow></c></b></root>";
    let r = extract(xml, "f.xml").unwrap();
    assert_eq!(r.status, "B");
}

#[test]
fn missing_status_history() {
    let xml = "<root><itemCode>AB</itemCode></root>";
    let r = extract(xml, "f.xml");
    assert!(matches!(r, Err(ExtractError::MissingStatusHistory)));
}

#[test]
fn missing_status_in_last_row() {
    let xml = "<root>\
        <StatusHistoryRow><status>OPEN</status></StatusHistoryRow>\
        <StatusHistoryRow><note>none</note></StatusHistoryRow>\
        </root>";
    let r = extract(xml, "f.xml");
    assert!(matches!(r, Err(ExtractError::MissingStatus)));
}

#[test]
fn status_without_text_is_missing() {
    let xml = "<root><StatusHistoryRow><status></status></StatusHistoryRow></root>";
    let r = extract(xml, "f.xml");
    assert!(matches!(r, Err(ExtractError::MissingStatus)));
}

#[test]
fn parse_error_reported() {
    let r = extract("<root><unclosed>", "bad.xml");
    match r {
        Err(ExtractError::Parse(m)) => assert!(!m.is_empty()),
        _ => panic!("expected a parse error"),
    }
}

#[test]
fn extraction_deterministic() {
    let xml = "<root><itemCode>X-1</itemCode>\
        <StatusHistoryRow><status>DONE</status></StatusHistoryRow></root>";
    let a = extract(xml, "f.xml").unwrap();
    let b = extract(xml, "f.xml").unwrap();
    assert_eq!(a.item_code, b.item_code);
    assert_eq!(a.source_name, b.source_name);
    assert_eq!(a.status, b.status);
}

#[test]
fn prefers_non_numeric_code() {
    let xml = "<root><itemCode>123</itemCode><itemCode>AB-9</itemCode>\
        <StatusHistoryRow><status>S</status></StatusHistoryRow></root>";
    let r = extract(xml, "f.xml").unwrap();
    assert_eq!(r.item_code, "AB-9");
}

#[test]
fn falls_back_to_first_numeric() {
    let xml = "<root><itemCode>123</itemCode><itemCode>456</itemCode>\
        <StatusHistoryRow><status>S</status></StatusHistoryRow></root>";
    let r = extract(xml, "f.xml").unwrap();
    assert_eq!(r.item_code, "123");
}

#[test]
fn no_item_code_is_empty() {
    let xml = "<root><StatusHistoryRow><status>S</status></StatusHistoryRow></root>";
    let r = extract(xml, "f.xml").unwrap();
    assert_eq!(r.item_code, "");
    assert_eq!(r.status, "S");
}

#[test]
fn item_code_without_direct_text_is_absent() {
    let xml = "<root><itemCode><inner>77</inner></itemCode><itemCode>88</itemCode>\
        <StatusHistoryRow><status>S</status></StatusHistoryRow></root>";
    let r = extract(xml, "f.xml").unwrap();
    assert_eq!(r.item_code, "88");
}

#[test]
fn namespaced_tags_match_by_local_name() {
    let xml = "<root xmlns:n=\"urn:x\"><n:itemCode>AB</n:itemCode>\
        <n:StatusHistoryRow><n:status>S</n:status></n:StatusHistoryRow></root>";
    let r = extract(xml, "f.xml").unwrap();
    assert_eq!(r.item_code, "AB");
    assert_eq!(r.status, "S");
}

#[test]
fn select_code_prefers_first_non_digits_only() {
    let codes = vec![
        String::from(" 42 "),
        String::from("AB"),
        String::from("CD"),
    ];
    assert_eq!(select_code(&codes), "AB");
}

#[test]
fn select_whitespace_only_code_counts_as_candidate() {
    let codes = vec![String::from("123"), String::from("  ")];
    assert_eq!(select_code(&codes), "  ");
}

#[test]
fn select_code_empty_when_no_candidates() {
    let none: Vec<String> = Vec::new();
    assert_eq!(select_code(&none), "");
    let empties = vec![String::new(), String::new()];
    assert_eq!(select_code(&empties), "");
}

#[test]
fn digits_only_trims_whitespace() {
    assert!(is_digits_only(" 42 "));
    assert!(is_digits_only("007"));
    assert!(!is_digits_only("a1"));
    assert!(!is_digits_only(""));
    assert!(!is_digits_only("   "));
    assert!(!is_digits_only("1 2"));
}

#[test]
fn bad_file_does_not_stop_batch() {
    let docs = vec![
        InputDocument {
            name: String::from("bad.xml"),
            text: String::from("<broken"),
        },
        InputDocument {
            name: String::from("good.xml"),
            text: String::from(
                "<root><itemCode>OK-1</itemCode>\
                 <StatusHistoryRow><status>S</status></StatusHistoryRow></root>",
            ),
        },
    ];
    let (records, failures) = process_batch(&docs);
    assert_eq!(records.len(), 1);
    assert_eq!(records[0].source_name, "good.xml");
    assert_eq!(records[0].item_code, "OK-1");
    assert_eq!(failures.len(), 1);
    assert_eq!(failures[0].name, "bad.xml");
    assert!(matches!(failures[0].error, ExtractError::Parse(_)));
}

#[test]
fn non_xml_names_are_not_candidates() {
    assert!(is_xml_file_name("data.xml"));
    assert!(is_xml_file_name("a.b.xml"));
    assert!(!is_xml_file_name("data.txt"));
    assert!(!is_xml_file_name("data.XML"));
    assert!(!is_xml_file_name(".xml"));
    assert!(!is_xml_file_name("xml"));
    assert!(!is_xml_file_name("a.xml.bak"));
}

#[test]
fn describe_names_the_failure() {
    let r = extract("<broken", "f.xml");
    match r {
        Err(e) => {
            let d = e.describe();
            assert!(d.starts_with("XML parse error: "));
        },
        _ => panic!("expected an error"),
    }
}
