use csv_tool::csv::order::{compare_bytes, compare_fields, compare_records, compare_strings};
use csv_tool::csv::{CsvRecord, DataType, SortKey, SortOptions, SortOrder, Sorter};
use std::cmp::Ordering;

fn numeric(a: &str, b: &str) -> Ordering {
    match (a.parse::<f64>(), b.parse::<f64>()) {
        (Ok(x), Ok(y)) => x.partial_cmp(&y).unwrap_or(Ordering::Equal),
        _ => Ordering::Equal,
    }
}

fn row(fields: &[&str]) -> CsvRecord<'static> {
    CsvRecord::from_strings(fields.iter().map(|f| f.to_string()).collect())
}

fn sorted_by(options: &SortOptions, rows: &[&[&str]]) -> Vec<Vec<String>> {
    let mut records: Vec<CsvRecord<'static>> = rows.iter().map(|r| row(r)).collect();
    records.sort_by(|a, b| {
        let found: Vec<Ordering> = options
            .keys
            .iter()
            .map(|key| match (a.fields.get(key.column), b.fields.get(key.column)) {
                (Some(x), Some(y)) => numeric(x, y),
                _ => Ordering::Equal,
            })
            .collect();
        compare_records(a, b, options, &found)
    });
    records.iter().map(|r| r.to_strings()).collect()
}

#[test]
fn test_number_comparison() {
    let sorter = Sorter::new(SortOptions::new());
    let key = SortKey::new(0, SortOrder::Ascending, DataType::Number);
    assert_eq!(sorter.compare_values("10", "2", &key, numeric("10", "2")), Ordering::Greater);
    assert_eq!(sorter.compare_values("2", "10", &key, numeric("2", "10")), Ordering::Less);
    assert_eq!(sorter.compare_values("5", "5", &key, numeric("5", "5")), Ordering::Equal);
}

#[test]
fn test_string_comparison() {
    let sorter = Sorter::new(SortOptions::new());
    let key = SortKey::new(0, SortOrder::Ascending, DataType::String);
    assert_eq!(
        sorter.compare_values("apple", "banana", &key, numeric("apple", "banana")),
        Ordering::Less
    );
    assert_eq!(
        sorter.compare_values("banana", "apple", &key, numeric("banana", "apple")),
        Ordering::Greater
    );
}

#[test]
fn test_case_insensitive() {
    let sorter = Sorter::new(SortOptions::new().with_case_sensitive(false));
    let key = SortKey::new(0, SortOrder::Ascending, DataType::String);
    assert_eq!(
        sorter.compare_values("Apple", "apple", &key, numeric("Apple", "apple")),
        Ordering::Equal
    );
}

#[test]
fn texts_compare_byte_by_byte() {
    assert_eq!(compare_bytes(b"", b""), Ordering::Equal);
    assert_eq!(compare_bytes(b"", b"a"), Ordering::Less);
    assert_eq!(compare_bytes(b"a", b""), Ordering::Greater);
    assert_eq!(compare_bytes(b"abc", b"abd"), Ordering::Less);
    assert_eq!(compare_bytes(b"abc", b"ab"), Ordering::Greater);
    assert_eq!(compare_bytes(b"ab", b"abc"), Ordering::Less);
    assert_eq!(compare_bytes(b"b", b"abc"), Ordering::Greater);
    for (a, b) in [("", "x"), ("Zebra", "apple"), ("\u{e9}", "z"), ("same", "same"), ("a", "A")] {
        assert_eq!(compare_strings(a, b, true), a.cmp(b));
        assert_eq!(compare_strings(a, b, false), a.to_lowercase().cmp(&b.to_lowercase()));
    }
}

#[test]
fn values_of_each_data_type() {
    let sorter = Sorter::new(SortOptions::new());
    let number = SortKey::new(0, SortOrder::Ascending, DataType::Number);
    let auto = SortKey::new(0, SortOrder::Ascending, DataType::Auto);
    let text = SortKey::new(0, SortOrder::Ascending, DataType::String);
    assert_eq!(sorter.compare_values("x", "y", &number, numeric("x", "y")), Ordering::Equal);
    assert_eq!(sorter.compare_values("x", "1", &number, numeric("x", "1")), Ordering::Greater);
    assert_eq!(sorter.compare_values("1", "x", &number, numeric("1", "x")), Ordering::Less);
    assert_eq!(sorter.compare_values("NaN", "1", &number, numeric("NaN", "1")), Ordering::Greater);
    assert_eq!(sorter.compare_values("1.5", "1e1", &number, numeric("1.5", "1e1")), Ordering::Less);
    assert_eq!(sorter.compare_values("10", "9", &auto, numeric("10", "9")), Ordering::Greater);
    assert_eq!(sorter.compare_values("10", "9", &text, numeric("10", "9")), Ordering::Less);
    assert_eq!(sorter.compare_values("10", "9x", &auto, numeric("10", "9x")), Ordering::Less);
    assert_eq!(sorter.compare_values("nan", "1", &auto, numeric("nan", "1")), Ordering::Equal);
    let first = Sorter::new(SortOptions::new().with_nulls_last(false));
    assert_eq!(first.compare_values("x", "1", &number, numeric("x", "1")), Ordering::Less);
    assert_eq!(first.compare_values("1", "x", &number, numeric("1", "x")), Ordering::Greater);
}

#[test]
fn missing_and_empty_fields_keep_their_place() {
    let up = SortKey::new(0, SortOrder::Ascending, DataType::Auto);
    let down = SortKey::new(0, SortOrder::Descending, DataType::Auto);
    for key in [&up, &down] {
        assert_eq!(compare_fields(None, None, key, true, true, Ordering::Equal), Ordering::Equal);
        assert_eq!(compare_fields(None, Some("a"), key, true, true, Ordering::Equal), Ordering::Greater);
        assert_eq!(compare_fields(Some("a"), None, key, true, true, Ordering::Equal), Ordering::Less);
        assert_eq!(compare_fields(Some(""), Some("a"), key, true, true, Ordering::Equal), Ordering::Greater);
        assert_eq!(compare_fields(Some("a"), Some(""), key, true, true, Ordering::Equal), Ordering::Less);
        assert_eq!(compare_fields(Some(""), None, key, true, true, Ordering::Equal), Ordering::Equal);
        assert_eq!(compare_fields(None, Some("a"), key, false, true, Ordering::Equal), Ordering::Less);
        assert_eq!(compare_fields(Some("a"), Some(""), key, false, true, Ordering::Equal), Ordering::Greater);
    }
    assert_eq!(compare_fields(Some("a"), Some("b"), &up, true, true, Ordering::Equal), Ordering::Less);
    assert_eq!(compare_fields(Some("a"), Some("b"), &down, true, true, Ordering::Equal), Ordering::Greater);
    assert_eq!(compare_fields(Some("2"), Some("10"), &up, true, true, Ordering::Less), Ordering::Less);
    assert_eq!(compare_fields(Some("2"), Some("10"), &down, true, true, Ordering::Less), Ordering::Greater);
    let sorter = Sorter::new(SortOptions::new().with_nulls_last(false));
    assert_eq!(sorter.compare_fields(None, Some("a"), &up, Ordering::Equal), Ordering::Less);
}

#[test]
fn rows_are_ordered_by_their_keys_in_turn() {
    let people: [&[&str]; 4] = [&["Charlie", "90"], &["Alice", "95"], &["Bob", ""], &["alice", "85"]];
    let by_name = SortOptions::new().add_key(SortKey::new(0, SortOrder::Ascending, DataType::String));
    assert_eq!(
        sorted_by(&by_name, &people),
        vec![vec!["Alice", "95"], vec!["Bob", ""], vec!["Charlie", "90"], vec!["alice", "85"]]
    );
    let by_score = SortOptions::new().add_key(SortKey::descending(1));
    assert_eq!(
        sorted_by(&by_score, &people),
        vec![vec!["Alice", "95"], vec!["Charlie", "90"], vec!["alice", "85"], vec!["Bob", ""]]
    );
    let both = SortOptions::new()
        .with_case_sensitive(false)
        .add_key(SortKey::new(0, SortOrder::Ascending, DataType::String))
        .add_key(SortKey::new(1, SortOrder::Ascending, DataType::Number));
    assert_eq!(
        sorted_by(&both, &people),
        vec![vec!["alice", "85"], vec!["Alice", "95"], vec!["Bob", ""], vec!["Charlie", "90"]]
    );
    let none = SortOptions::new();
    assert_eq!(compare_records(&row(&["a"]), &row(&["b"]), &none, &Vec::new()), Ordering::Equal);
    let sorter = Sorter::new(by_name);
    assert_eq!(sorter.compare_records(&row(&["a"]), &row(&["b"]), &Vec::new()), Ordering::Less);
    let far = SortOptions::new().add_key(SortKey::ascending(7));
    assert_eq!(compare_records(&row(&["a"]), &row(&["b"]), &far, &vec![Ordering::Less]), Ordering::Equal);
}

#[test]
fn test_sort_order() {
    assert_eq!(SortOrder::from_str("asc"), Some(SortOrder::Ascending));
    assert_eq!(SortOrder::from_str("DESC"), Some(SortOrder::Descending));
    assert_eq!(SortOrder::from_str("invalid"), None);
}

#[test]
fn test_data_type() {
    assert_eq!(DataType::from_str("string"), Some(DataType::String));
    assert_eq!(DataType::from_str("number"), Some(DataType::Number));
    assert_eq!(DataType::from_str("auto"), Some(DataType::Auto));
}

#[test]
fn every_name_of_a_direction_and_a_type() {
    for word in ["asc", "ascending", "a", "Ascending", "A"] {
        assert_eq!(SortOrder::from_str(word), Some(SortOrder::Ascending));
    }
    for word in ["desc", "descending", "d", "Desc"] {
        assert_eq!(SortOrder::from_str(word), Some(SortOrder::Descending));
    }
    assert_eq!(SortOrder::from_lowercase("ASC"), None);
    assert_eq!(SortOrder::from_str(""), None);
    for word in ["string", "str", "s", "text", "TEXT"] {
        assert_eq!(DataType::from_str(word), Some(DataType::String));
    }
    for word in ["number", "num", "n", "numeric"] {
        assert_eq!(DataType::from_str(word), Some(DataType::Number));
    }
    for word in ["auto", "a"] {
        assert_eq!(DataType::from_str(word), Some(DataType::Auto));
    }
    assert_eq!(DataType::from_str("float"), None);
    assert_eq!(DataType::from_lowercase("Auto"), None);
    assert_eq!(SortOrder::Ascending.reverse(), SortOrder::Descending);
    assert_eq!(SortOrder::Descending.reverse(), SortOrder::Ascending);
}

#[test]
fn keys_and_options_are_built_step_by_step() {
    assert_eq!(
        SortKey::new(3, SortOrder::Descending, DataType::Number),
        SortKey { column: 3, order: SortOrder::Descending, data_type: DataType::Number }
    );
    assert_eq!(SortKey::ascending(1), SortKey::new(1, SortOrder::Ascending, DataType::Auto));
    assert_eq!(SortKey::descending(2), SortKey::new(2, SortOrder::Descending, DataType::Auto));
    assert_eq!(
        SortKey::ascending(1).with_data_type(DataType::String),
        SortKey::new(1, SortOrder::Ascending, DataType::String)
    );
    let options = SortOptions::new();
    assert!(options.keys.is_empty());
    assert!(options.nulls_last);
    assert!(options.case_sensitive);
    let options = SortOptions::default()
        .add_key(SortKey::ascending(0))
        .add_key(SortKey::descending(4))
        .with_nulls_last(false)
        .with_case_sensitive(false);
    assert_eq!(options.keys, vec![SortKey::ascending(0), SortKey::descending(4)]);
    assert!(!options.nulls_last);
    assert!(!options.case_sensitive);
    let sorter = Sorter::new(options);
    assert_eq!(sorter.get_options().keys.len(), 2);
}

#[test]
fn rows_are_numbered_in_their_order() {
    let rows = vec![
        (5usize, CsvRecord::from_strings(vec!["a".to_string()])),
        (9usize, CsvRecord::from_strings(vec!["b".to_string()])),
        (2usize, CsvRecord::from_strings(vec!["c".to_string()])),
    ];
    let numbered = Sorter::number_rows(rows);
    assert_eq!(numbered.len(), 3);
    assert_eq!(numbered[0].original_row, 5);
    assert_eq!(numbered[1].original_row, 9);
    assert_eq!(numbered[2].original_row, 2);
    assert_eq!(numbered[0].record.fields[0], "a");
    assert_eq!(numbered[2].record.fields[0], "c");
}
