use csv_tool::csv::{CsvReader, CsvRecord};
use std::borrow::Cow;

fn texts(record: &CsvRecord) -> Vec<String> {
    record.fields.iter().map(|f| f.to_string()).collect()
}

#[test]
fn test_quoted_fields() {
    let data = b"col1,col2,col3\n\"quoted,field\",normal,\"another\"\"quote\"\"\"\n";
    let mut reader = CsvReader::open(data, "test_quoted.csv", true, b',', 10, None).unwrap();
    let rows = reader.read_page(0, 10).unwrap();
    assert_eq!(rows.len(), 1);
    assert_eq!(rows[0].fields.len(), 3);
    let field0 = rows[0].fields[0].as_ref();
    let field1 = rows[0].fields[1].as_ref();
    let field2 = rows[0].fields[2].as_ref();
    assert_eq!(field0, "quoted,field");
    assert_eq!(field1, "normal");
    assert_eq!(field2, "another\"quote\"");
}

#[test]
fn a_line_with_quoted_fields_is_parsed() {
    let line = b"\"quoted,field\",normal,\"another\"\"quote\"\"\"";
    let record = CsvRecord::parse_line(line, b',');
    assert_eq!(texts(&record), vec!["quoted,field", "normal", "another\"quote\""]);
}

#[test]
fn quoted_delimiter_and_doubled_quote() {
    let record = CsvRecord::parse_line(b"\"hel\"\"lo\",wo,rld", b',');
    assert_eq!(texts(&record), vec!["hel\"lo", "wo", "rld"]);
}

#[test]
fn empty_fields_and_trailing_delimiter() {
    assert_eq!(texts(&CsvRecord::parse_line(b"", b',')), vec![""]);
    assert_eq!(texts(&CsvRecord::parse_line(b",", b',')), vec!["", ""]);
    assert_eq!(texts(&CsvRecord::parse_line(b"a,,b,", b',')), vec!["a", "", "b", ""]);
    assert_eq!(texts(&CsvRecord::parse_line(b"a;b", b';')), vec!["a", "b"]);
    assert_eq!(texts(&CsvRecord::parse_line(b"a;b", b',')), vec!["a;b"]);
}

#[test]
fn carriage_return_at_the_end_is_dropped() {
    assert_eq!(texts(&CsvRecord::parse_line(b"a,b\r", b',')), vec!["a", "b"]);
    assert_eq!(texts(&CsvRecord::parse_line(b"\r", b',')), vec![""]);
    assert_eq!(texts(&CsvRecord::parse_line(b"a\rb,c", b',')), vec!["a\rb", "c"]);
    assert_eq!(texts(&CsvRecord::parse_line(b"\"a\r\",b", b',')), vec!["a\r", "b"]);
}

#[test]
fn whitespace_is_kept() {
    assert_eq!(texts(&CsvRecord::parse_line(b" a , b ", b',')), vec![" a ", " b "]);
}

#[test]
fn outer_quotes_only() {
    assert_eq!(texts(&CsvRecord::parse_line(b"\"\"", b',')), vec![""]);
    assert_eq!(texts(&CsvRecord::parse_line(b"\"", b',')), vec!["\""]);
    assert_eq!(texts(&CsvRecord::parse_line(b"\"a\"b", b',')), vec!["\"a\"b"]);
    assert_eq!(texts(&CsvRecord::parse_line(b"\"\"\"\"", b',')), vec!["\""]);
}

#[test]
fn a_quote_as_delimiter_never_splits() {
    assert_eq!(texts(&CsvRecord::parse_line(b"a\"b", b'"')), vec!["a\"b"]);
}

#[test]
fn plain_fields_borrow_from_the_line() {
    let line = b"plain,\"quoted\",\"with \"\"quote\"\"\",\xC3\xA9";
    let record = CsvRecord::parse_line(line, b',');
    assert_eq!(texts(&record), vec!["plain", "quoted", "with \"quote\"", "\u{e9}"]);
    match &record.fields[0] {
        Cow::Borrowed(s) => assert_eq!(s.as_ptr(), line.as_ptr()),
        Cow::Owned(_) => panic!("a plain field must borrow"),
    }
    match &record.fields[1] {
        Cow::Borrowed(s) => assert_eq!(s.as_ptr(), line[7..].as_ptr()),
        Cow::Owned(_) => panic!("a field without inner quotes must borrow"),
    }
    assert!(matches!(record.fields[2], Cow::Owned(_)));
    assert!(matches!(record.fields[3], Cow::Borrowed(_)));
}

#[test]
fn ill_formed_text_is_replaced() {
    let record = CsvRecord::parse_line(b"a\xFFb,\"x\"\"\xFF\"", b',');
    assert_eq!(texts(&record), vec!["a\u{fffd}b", "x\"\u{fffd}"]);
    assert!(matches!(record.fields[0], Cow::Owned(_)));
}

#[test]
fn owned_copy_has_the_same_text() {
    let owned: CsvRecord<'static> = {
        let line = b"a,\"b\"\"c\",d".to_vec();
        let record = CsvRecord::parse_line(&line, b',');
        record.to_owned()
    };
    assert_eq!(texts(&owned), vec!["a", "b\"c", "d"]);
    assert_eq!(owned.fields.len(), 3);
    assert!(owned.fields.iter().all(|f| matches!(f, Cow::Owned(_))));
    assert_eq!(owned.to_strings(), vec!["a", "b\"c", "d"]);
    let back = CsvRecord::from_strings(vec!["x".to_string(), "y".to_string()]);
    assert_eq!(texts(&back), vec!["x", "y"]);
}
