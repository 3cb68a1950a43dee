use csv_tool::csv::lines::{read_rows, realign, skip_rows};
use csv_tool::csv::reader::{records_of, rows_of};
use csv_tool::csv::CsvRecord;

fn texts(rows: &[CsvRecord]) -> Vec<Vec<String>> {
    rows.iter().map(|r| r.to_strings()).collect()
}

#[test]
fn rows_are_skipped_line_by_line() {
    let data = b"a\nbb\n\nccc";
    assert_eq!(skip_rows(data, 0, 0), 0);
    assert_eq!(skip_rows(data, 0, 1), 2);
    assert_eq!(skip_rows(data, 0, 2), 5);
    assert_eq!(skip_rows(data, 0, 3), 6);
    assert_eq!(skip_rows(data, 0, 4), 9);
    assert_eq!(skip_rows(data, 0, 99), 9);
    assert_eq!(skip_rows(data, 3, 1), 5);
    assert_eq!(skip_rows(data, 9, 1), 9);
}

#[test]
fn rows_are_read_up_to_the_end() {
    let data = b"a,b\nc\n\nd,e,f";
    assert_eq!(texts(&read_rows(data, b',', 0, 2)), vec![vec!["a", "b"], vec!["c"]]);
    assert_eq!(
        texts(&read_rows(data, b',', 0, 9)),
        vec![vec!["a", "b"], vec!["c"], vec![""], vec!["d", "e", "f"]]
    );
    assert_eq!(texts(&read_rows(data, b',', 4, 1)), vec![vec!["c"]]);
    assert!(read_rows(data, b',', 0, 0).is_empty());
    assert!(read_rows(data, b',', 12, 3).is_empty());
    assert_eq!(texts(&read_rows(b"x\n", b',', 0, 5)), vec![vec!["x"]]);
}

#[test]
fn a_stray_offset_is_taken_back_to_the_start_of_its_row() {
    let data = b"first\nsecond\nthird";
    assert_eq!(realign(data, 0), 0);
    assert_eq!(realign(data, 3), 3);
    assert_eq!(realign(data, 6), 6);
    assert_eq!(realign(data, 9), 6);
    assert_eq!(realign(data, 13), 13);
    assert_eq!(realign(data, 18), 13);
    let mut long = vec![b'x'; 3000];
    long[10] = b'\n';
    assert_eq!(realign(&long, 1000), 11);
    assert_eq!(realign(&long, 1034), 11);
    assert_eq!(realign(&long, 1035), 1035);
}

#[test]
fn pages_keep_their_text_when_owned() {
    let data = b"a,\"b\"\"c\"\n\xFFd,e\n";
    let rows = read_rows(data, b',', 0, 5);
    let owned = rows_of(&rows);
    assert_eq!(owned, vec![vec!["a".to_string(), "b\"c".to_string()], vec!["\u{fffd}d".to_string(), "e".to_string()]]);
    let back = records_of(owned.clone());
    assert_eq!(texts(&back), owned);
}
