use csv_tool::csv::detect::{count_in, has_letters, has_numbers};
use csv_tool::csv::display::{parse_column_spec, parse_number, same_name_as, truncate_str};
use csv_tool::csv::{detect_delimiter, detect_has_headers};
use csv_tool::error::CsvError;

#[test]
fn the_delimiter_that_occurs_most_wins() {
    assert_eq!(detect_delimiter(b"a,b,c\n1,2,3\n"), b',');
    assert_eq!(detect_delimiter(b"a;b;c\n1;2;3\n"), b';');
    assert_eq!(detect_delimiter(b"a\tb\tc\n1\t2\t3\n"), b'\t');
    assert_eq!(detect_delimiter(b"a|b|c\n1|2|3\n"), b'|');
    assert_eq!(detect_delimiter(b"a,b;c;d\n"), b';');
    assert_eq!(detect_delimiter(b"a,b;c\n"), b',');
    assert_eq!(detect_delimiter(b"a;b|c\n"), b';');
    assert_eq!(detect_delimiter(b"abc\n"), b',');
    assert_eq!(detect_delimiter(b""), b',');
}

#[test]
fn only_the_first_lines_are_counted() {
    let mut data = Vec::new();
    for _ in 0..11 {
        data.extend_from_slice(b"a,b\n");
    }
    for _ in 0..50 {
        data.extend_from_slice(b"a;b;c;d\n");
    }
    assert_eq!(detect_delimiter(&data), b',');
    data.splice(0..0, b"x;y;z;u;v;w;x;y;z;u;v;w\n".iter().copied());
    assert_eq!(detect_delimiter(&data), b';');
    assert_eq!(count_in(b"a,b,,c", b',', 0, 6), 3);
    assert_eq!(count_in(b"a,b,,c", b',', 2, 4), 1);
}

#[test]
fn a_header_line_has_letters_above_numbers() {
    assert_eq!(detect_has_headers(b"name,age\nAlice,25\n").unwrap(), true);
    assert_eq!(detect_has_headers(b"1,2\n3,4\n").unwrap(), false);
    assert_eq!(detect_has_headers(b"name,age\nAlice,Bob\n").unwrap(), false);
    assert_eq!(detect_has_headers(b"name,age").unwrap(), false);
    assert_eq!(detect_has_headers(b"").unwrap(), false);
    assert_eq!(detect_has_headers(b"a\n1").unwrap(), true);
    assert!(matches!(detect_has_headers(b"a\xFF\n1\n"), Err(CsvError::Io(_))));
    assert!(matches!(detect_has_headers(b"a\n\xFF1\n"), Err(CsvError::Io(_))));
    assert!(has_letters("12\u{e9}"));
    assert!(!has_letters("12 ,;"));
    assert!(has_numbers("ab\u{661}"));
    assert!(!has_numbers("ab"));
}

#[test]
fn columns_are_named_by_number_or_header() {
    let headers = vec!["id".to_string(), "Name".to_string(), "name".to_string()];
    assert_eq!(parse_column_spec("1", &headers).unwrap(), 0);
    assert_eq!(parse_column_spec("3", &headers).unwrap(), 2);
    assert_eq!(parse_column_spec("+2", &headers).unwrap(), 1);
    assert_eq!(parse_column_spec("17", &headers).unwrap(), 16);
    assert!(matches!(parse_column_spec("0", &headers), Err(CsvError::Format(_))));
    assert_eq!(parse_column_spec("NAME", &headers).unwrap(), 1);
    assert_eq!(parse_column_spec("ID", &headers).unwrap(), 0);
    assert!(matches!(parse_column_spec("city", &headers), Err(CsvError::Format(_))));
    assert!(matches!(parse_column_spec("-1", &headers), Err(CsvError::Format(_))));
    assert!(matches!(parse_column_spec("", &headers), Err(CsvError::Format(_))));
    assert_eq!(parse_number("007"), Some(7));
    assert_eq!(parse_number("18446744073709551615"), "18446744073709551615".parse::<usize>().ok());
    assert_eq!(parse_number("18446744073709551616"), None);
    assert_eq!(parse_number("99999999999999999999999"), None);
    assert_eq!(parse_number("1a"), None);
    assert_eq!(parse_number("+"), None);
    assert!(same_name_as("AbC", "aBc"));
    assert!(!same_name_as("abc", "abd"));
    assert!(!same_name_as("abc", "ab"));
    assert!(!same_name_as("\u{c9}", "\u{e9}"));
}

#[test]
fn long_texts_are_cut() {
    assert_eq!(truncate_str("hello", 10), "hello");
    assert_eq!(truncate_str("hello", 5), "hello");
    assert_eq!(truncate_str("hello world", 5), "hel..");
    assert_eq!(truncate_str("h\u{e9}llo world", 4), "h\u{e9}..");
    assert_eq!(truncate_str("abc", 2), "..");
    assert_eq!(truncate_str("", 0), "");
}
