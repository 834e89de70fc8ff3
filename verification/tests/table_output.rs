use status_table::extract::ExtractionResult;
use status_table::table::table_string;

fn record(code: &str, name: &str, status: &str) -> ExtractionResult {
    ExtractionResult {
        item_code: String::from(code),
        source_name: String::from(name),
        status: String::from(status),
    }
}

#[test]
fn header_only_table() {
    let records: Vec<ExtractionResult> = Vec::new();
    assert_eq!(table_string(&records), "itemCode,filename,status\n");
}

#[test]
fn plain_fields_stay_unquoted() {
    let records = vec![record("AB-9", "f.xml", "CLOSED")];
    assert_eq!(
        table_string(&records),
        "itemCode,filename,status\nAB-9,f.xml,CLOSED\n"
    );
}

#[test]
fn special_fields_are_quoted_and_doubled() {
    let records = vec![record("a,b", "f.xml", "s\"x")];
    assert_eq!(
        table_string(&records),
        "itemCode,filename,status\n\"a,b\",f.xml,\"s\"\"x\"\n"
    );
}

#[test]
fn rows_keep_input_order() {
    let records = vec![
        record("1a", "f1.xml", "A"),
        record("2b", "f2.xml", "B"),
        record("3c", "f3.xml", "C"),
    ];
    let s = table_string(&records);
    let lines: Vec<&str> = s.lines().collect();
    assert_eq!(lines.len(), 4);
    assert_eq!(lines[1], "1a,f1.xml,A");
    assert_eq!(lines[2], "2b,f2.xml,B");
    assert_eq!(lines[3], "3c,f3.xml,C");
}

#[test]
fn round_trip_through_a_real_reader() {
    let records = vec![
        record("a,b", "f1.xml", "ok \"fine\""),
        record("", "f2.xml", "line1\nline2"),
        record("plain", "f3.xml", "done,now"),
    ];
    let s = table_string(&records);
    let mut rdr = csv::ReaderBuilder::new()
        .has_headers(false)
        .from_reader(s.as_bytes());
    let rows: Vec<csv::StringRecord> = rdr.records().map(|r| r.unwrap()).collect();
    assert_eq!(rows.len(), records.len() + 1);
    assert_eq!(&rows[0][0], "itemCode");
    assert_eq!(&rows[0][1], "filename");
    assert_eq!(&rows[0][2], "status");
    for (i, rec) in records.iter().enumerate() {
        assert_eq!(&rows[i + 1][0], rec.item_code.as_str());
        assert_eq!(&rows[i + 1][1], rec.source_name.as_str());
        assert_eq!(&rows[i + 1][2], rec.status.as_str());
    }
}
