use csv_tool::csv::writer::{escape_csv_field, format_row};
use csv_tool::csv::{
    ChangeStats, CsvCreator, CsvEditor, CsvRecord, LineEnding, RowData, WriteOptions,
};
use csv_tool::error::CsvError;

#[test]
fn test_row_data() {
    let row = RowData::new(vec!["a".to_string(), "b".to_string()]);
    assert_eq!(row.len(), 2);
    assert!(!row.is_empty());
}

#[test]
fn test_row_data_from_strs() {
    let row = RowData::from_strs(&["hello", "world"]);
    assert_eq!(row.fields, vec!["hello", "world"]);
}

#[test]
fn writer_test_escape_csv_field() {
    let options = WriteOptions::default();
    assert_eq!(escape_csv_field("simple", &options), "simple");
    assert_eq!(escape_csv_field("with,comma", &options), "\"with,comma\"");
    assert_eq!(escape_csv_field("with\"quote", &options), "\"with\"\"quote\"");
    assert_eq!(escape_csv_field("with\nnewline", &options), "\"with\nnewline\"");
}

#[test]
fn writer_test_write_options() {
    let options = WriteOptions::new().with_delimiter(b'\t').with_always_quote(true).with_headers(false);
    assert_eq!(options.delimiter, b'\t');
    assert!(options.always_quote);
    assert!(!options.write_headers);
}

#[test]
fn writer_test_change_stats() {
    let stats = ChangeStats {
        cells_edited: 5,
        rows_deleted: 2,
        rows_inserted: 3,
        rows_appended: 1,
        cols_deleted: 0,
        cols_inserted: 0,
    };
    assert!(stats.has_changes());
}

#[test]
fn no_changes_counted_means_no_changes() {
    let stats = ChangeStats {
        cells_edited: 0,
        rows_deleted: 0,
        rows_inserted: 0,
        rows_appended: 0,
        cols_deleted: 0,
        cols_inserted: 0,
    };
    assert!(!stats.has_changes());
}

#[test]
fn default_options_and_line_endings() {
    let options = WriteOptions::default();
    assert_eq!(options.delimiter, b',');
    assert_eq!(options.line_ending, LineEnding::Lf);
    assert!(!options.always_quote);
    assert!(options.write_headers);
    assert_eq!(LineEnding::default(), LineEnding::Lf);
    assert_eq!(LineEnding::Lf.as_bytes(), b"\n");
    assert_eq!(LineEnding::CrLf.as_bytes(), b"\r\n");
    assert_eq!(LineEnding::Cr.as_bytes(), b"\r");
    let options = options.with_line_ending(LineEnding::CrLf);
    assert_eq!(options.line_ending, LineEnding::CrLf);
    let mut text = String::from("a");
    LineEnding::CrLf.append_to(&mut text);
    assert_eq!(text, "a\r\n");
}

#[test]
fn rows_are_made_from_records_too() {
    let record = CsvRecord::parse_line(b"a,\"b,c\"", b',');
    let row = RowData::from_record(&record);
    assert_eq!(row.fields, vec!["a", "b,c"]);
    assert!(RowData::new(Vec::new()).is_empty());
}

#[test]
fn lines_are_joined_with_the_delimiter() {
    let options = WriteOptions::default();
    let fields = vec!["a".to_string(), "b,c".to_string(), "".to_string(), "d\"e".to_string()];
    assert_eq!(format_row(&fields, &options), "a,\"b,c\",,\"d\"\"e\"");
    assert_eq!(format_row(&Vec::new(), &options), "");
    let quoted = options.with_always_quote(true).with_delimiter(b';');
    assert_eq!(format_row(&fields, &quoted), "\"a\";\"b,c\";\"\";\"d\"\"e\"");
}

#[test]
fn what_is_written_is_parsed_back() {
    let options = WriteOptions::default();
    let fields = vec![
        "plain".to_string(),
        "with,comma".to_string(),
        "with \"quotes\"".to_string(),
        "".to_string(),
        "\"".to_string(),
        "line\nbreak\r".to_string(),
        "\u{e9}".to_string(),
    ];
    let line = format_row(&fields, &options);
    let record = CsvRecord::parse_line(line.as_bytes(), b',');
    assert_eq!(record.to_strings(), fields);
}

#[test]
fn test_csv_creator() {
    let headers = vec!["id".to_string(), "name".to_string()];
    let mut creator = CsvCreator::new(headers);
    creator.add_row(RowData::new(vec!["1".to_string(), "Alice".to_string()])).unwrap();
    creator.add_row(RowData::new(vec!["2".to_string(), "Bob".to_string()])).unwrap();
    let (content, rows_written) = creator.render();
    assert_eq!(rows_written, 2);
    assert!(content.contains("id,name"));
    assert!(content.contains("1,Alice"));
    assert!(content.contains("2,Bob"));
    assert_eq!(content, "id,name\n1,Alice\n2,Bob\n");
}

#[test]
fn test_escape_special_chars() {
    let headers = vec!["name".to_string(), "desc".to_string()];
    let mut creator = CsvCreator::new(headers);
    creator
        .add_row(RowData::new(vec!["Alice".to_string(), "Hello, \"World\"".to_string()]))
        .unwrap();
    let (content, _) = creator.render();
    assert!(content.contains("\"Hello, \"\"World\"\"\""));
}

#[test]
fn writer_test_test_write_options() {
    let headers = vec!["name".to_string(), "age".to_string()];
    let options = WriteOptions::new().with_delimiter(b'\t').with_always_quote(true);
    let mut creator = CsvCreator::new(headers).with_options(options);
    creator.add_row(RowData::new(vec!["Alice".to_string(), "25".to_string()])).unwrap();
    let (content, _) = creator.render();
    assert!(content.contains("\t"));
    assert!(content.contains("\"name\""));
    assert_eq!(content, "\"name\"\t\"age\"\n\"Alice\"\t\"25\"\n");
}

#[test]
fn creator_refuses_rows_of_another_width() {
    let mut creator = CsvCreator::new(vec!["a".to_string(), "b".to_string()]);
    assert!(matches!(creator.add_row(RowData::from_strs(&["1"])), Err(CsvError::Format(_))));
    assert!(creator.add_rows(vec![RowData::from_strs(&["1", "2"]), RowData::from_strs(&["3", "4"])]).is_ok());
    assert!(matches!(
        creator.add_rows(vec![RowData::from_strs(&["5", "6"]), RowData::from_strs(&["7"])]),
        Err(CsvError::Format(_))
    ));
    let creator = creator.with_options(WriteOptions::new().with_headers(false).with_line_ending(LineEnding::CrLf));
    let (content, rows) = creator.render();
    assert_eq!(rows, 3);
    assert_eq!(content, "1,2\r\n3,4\r\n5,6\r\n");
    let mut other = CsvCreator::new(vec!["a".to_string()]);
    let result = other.add_rows(vec![
        RowData::from_strs(&["1"]),
        RowData::from_strs(&["2"]),
        RowData::from_strs(&["3", "4"]),
        RowData::from_strs(&["5"]),
    ]);
    assert!(matches!(result, Err(CsvError::Format(_))));
    assert_eq!(other.render(), ("a\n1\n2\n".to_string(), 2));
}

#[test]
fn writer_test_test_change_stats() {
    let content = b"name,age\nAlice,25\nBob,30\n";
    let mut editor = CsvEditor::open(content, "people.csv", true, b',', 10).unwrap();
    assert!(!editor.has_changes());
    editor.edit_cell(0, 0, "Updated".to_string()).unwrap();
    assert!(editor.has_changes());
    let stats = editor.change_stats();
    assert_eq!(stats.cells_edited, 1);
    editor.discard_changes();
    assert!(!editor.has_changes());
}

#[test]
fn editor_knows_the_source() {
    let content = b"name,age\nAlice,25\nBob,30\n";
    let editor = CsvEditor::open(content, "people.csv", true, b',', 10).unwrap();
    assert_eq!(editor.headers(), &vec!["name".to_string(), "age".to_string()]);
    assert_eq!(editor.row_count(), 2);
    assert_eq!(editor.col_count(), 2);
    assert_eq!(editor.effective_row_count(), 2);
    assert_eq!(editor.effective_col_count(), 2);
    assert_eq!(editor.get_cell(content, 0, 0).unwrap(), Some("Alice".to_string()));
    assert_eq!(editor.get_cell(content, 1, 1).unwrap(), Some("30".to_string()));
    assert_eq!(editor.get_cell(content, 1, 2).unwrap(), None);
    assert_eq!(editor.get_cell(content, 2, 0).unwrap(), None);
    assert!(matches!(CsvEditor::open(b"", "none.csv", true, b',', 10), Err(CsvError::Format(_))));
}

#[test]
fn edits_replace_values_and_follow_the_rules() {
    let content = b"name,age\nAlice,25\nBob,30\n";
    let mut editor = CsvEditor::open(content, "people.csv", true, b',', 10).unwrap();
    editor.edit_cell(0, 0, "Alice Updated".to_string()).unwrap();
    assert_eq!(editor.get_cell(content, 0, 0).unwrap(), Some("Alice Updated".to_string()));
    editor.edit_cell(0, 0, "Once more".to_string()).unwrap();
    assert_eq!(editor.get_cell(content, 0, 0).unwrap(), Some("Once more".to_string()));
    assert_eq!(editor.change_stats().cells_edited, 1);
    editor.edit_cell(1, 1, "31".to_string()).unwrap();
    assert_eq!(editor.change_stats().cells_edited, 2);
    assert!(matches!(
        editor.edit_cell(2, 0, "x".to_string()),
        Err(CsvError::IndexOutOfBounds { row: 2, total_rows: 2 })
    ));
    assert!(matches!(editor.edit_cell(0, 2, "x".to_string()), Err(CsvError::Format(_))));
    editor.delete_row(1).unwrap();
    assert!(matches!(editor.edit_cell(1, 0, "x".to_string()), Err(CsvError::Format(_))));
    assert_eq!(editor.change_stats().cells_edited, 1);
    assert_eq!(editor.get_cell(content, 1, 1).unwrap(), None);
    editor.undelete_row(1).unwrap();
    assert_eq!(editor.get_cell(content, 1, 1).unwrap(), Some("30".to_string()));
    assert!(matches!(editor.undelete_row(1), Err(CsvError::Format(_))));
}

#[test]
fn rows_are_deleted_appended_and_inserted() {
    let content = b"name,age\nAlice,25\nBob,30\nCharlie,35\n";
    let mut editor = CsvEditor::open(content, "people.csv", true, b',', 10).unwrap();
    editor.delete_row(1).unwrap();
    assert_eq!(editor.effective_row_count(), 2);
    assert_eq!(editor.change_stats().rows_deleted, 1);
    assert!(editor.change_stats().rows_deleted <= editor.row_count());
    editor.delete_row(1).unwrap();
    assert_eq!(editor.change_stats().rows_deleted, 1);
    editor.append_row(RowData::from_strs(&["Dora", "40"])).unwrap();
    editor.append_row(RowData::from_strs(&["Emil", "45"])).unwrap();
    assert!(matches!(editor.append_row(RowData::from_strs(&["short"])), Err(CsvError::Format(_))));
    assert_eq!(editor.effective_row_count(), 4);
    assert!(editor.is_appended_row(3));
    assert!(editor.is_appended_row(4));
    assert!(!editor.is_appended_row(5));
    assert!(!editor.is_appended_row(2));
    assert_eq!(editor.get_cell(content, 4, 0).unwrap(), Some("Emil".to_string()));
    assert_eq!(editor.get_cell(content, 4, 5).unwrap(), None);
    editor.edit_cell(3, 1, "41".to_string()).unwrap();
    assert_eq!(editor.get_cell(content, 3, 1).unwrap(), Some("41".to_string()));
    editor.delete_row(3).unwrap();
    assert_eq!(editor.change_stats().rows_appended, 1);
    assert!(matches!(
        editor.delete_row(9),
        Err(CsvError::IndexOutOfBounds { row: 9, total_rows: 3 })
    ));
    editor.insert_row(0, RowData::from_strs(&["Zed", "1"])).unwrap();
    editor.insert_row(3, RowData::from_strs(&["Yan", "2"])).unwrap();
    assert!(matches!(
        editor.insert_row(4, RowData::from_strs(&["Xi", "3"])),
        Err(CsvError::IndexOutOfBounds { row: 4, total_rows: 3 })
    ));
    assert!(matches!(editor.insert_row(1, RowData::from_strs(&["Wu"])), Err(CsvError::Format(_))));
    assert_eq!(editor.change_stats().rows_inserted, 2);
    assert_eq!(editor.effective_row_count(), 5);
}

#[test]
fn columns_are_deleted_and_headers_renamed() {
    let content = b"name,age,city\nAlice,25,Beijing\n";
    let mut editor = CsvEditor::open(content, "people.csv", true, b',', 10).unwrap();
    editor.edit_cell(0, 1, "26".to_string()).unwrap();
    editor.edit_cell(0, 2, "Berlin".to_string()).unwrap();
    editor.delete_col(1).unwrap();
    assert_eq!(editor.effective_col_count(), 2);
    assert_eq!(editor.change_stats().cols_deleted, 1);
    assert_eq!(editor.change_stats().cells_edited, 1);
    assert_eq!(editor.get_cell(content, 0, 1).unwrap(), Some("25".to_string()));
    assert_eq!(editor.get_cell(content, 0, 2).unwrap(), Some("Berlin".to_string()));
    assert!(matches!(editor.delete_col(3), Err(CsvError::Format(_))));
    editor.append_row(RowData::from_strs(&["Bob", "Paris"])).unwrap();
    editor.set_header(0, "full_name".to_string()).unwrap();
    assert_eq!(editor.headers()[0], "full_name");
    assert!(matches!(editor.set_header(3, "x".to_string()), Err(CsvError::Format(_))));
    assert!(editor.has_changes());
    editor.discard_changes();
    assert!(!editor.has_changes());
    assert_eq!(editor.effective_col_count(), 3);
    assert_eq!(editor.headers()[0], "full_name");
}

#[test]
fn test_edit_cell() {
    let content = b"name,age\nAlice,25\nBob,30\n";
    let mut editor = CsvEditor::open(content, "people.csv", true, b',', 10).unwrap();
    editor.edit_cell(0, 0, "Alice Updated".to_string()).unwrap();
    let options = WriteOptions::default();
    let (text, rows_written) = editor.render(content, &options).unwrap();
    assert_eq!(rows_written, 2);
    assert!(text.contains("Alice Updated"));
    assert_eq!(text, "name,age\nAlice Updated,25\nBob,30\n");
}

#[test]
fn test_delete_row() {
    let content = b"name,age\nAlice,25\nBob,30\nCharlie,35\n";
    let mut editor = CsvEditor::open(content, "people.csv", true, b',', 10).unwrap();
    editor.delete_row(1).unwrap();
    let options = WriteOptions::default();
    let (text, rows_written) = editor.render(content, &options).unwrap();
    assert_eq!(rows_written, 2);
    assert!(text.contains("Alice"));
    assert!(!text.contains("Bob"));
    assert!(text.contains("Charlie"));
}

#[test]
fn test_append_row() {
    let content = b"name,age\nAlice,25\n";
    let mut editor = CsvEditor::open(content, "people.csv", true, b',', 10).unwrap();
    let new_row = RowData::new(vec!["Bob".to_string(), "30".to_string()]);
    editor.append_row(new_row).unwrap();
    let options = WriteOptions::default();
    let (text, rows_written) = editor.render(content, &options).unwrap();
    assert_eq!(rows_written, 2);
    assert!(text.contains("Alice"));
    assert!(text.contains("Bob"));
}

#[test]
fn test_delete_col() {
    let content = b"name,age,city\nAlice,25,Beijing\n";
    let mut editor = CsvEditor::open(content, "people.csv", true, b',', 10).unwrap();
    editor.delete_col(1).unwrap();
    let options = WriteOptions::default();
    let (text, _) = editor.render(content, &options).unwrap();
    assert!(text.contains("name"));
    assert!(!text.contains("age"));
    assert!(text.contains("city"));
    assert!(text.contains("Alice"));
    assert!(text.contains("Beijing"));
    assert_eq!(text, "name,city\nAlice,Beijing\n");
}

#[test]
fn test_set_header() {
    let content = b"name,age\nAlice,25\n";
    let mut editor = CsvEditor::open(content, "people.csv", true, b',', 10).unwrap();
    editor.set_header(0, "full_name".to_string()).unwrap();
    let options = WriteOptions::default();
    let (text, _) = editor.render(content, &options).unwrap();
    assert!(text.contains("full_name"));
    assert!(!text.starts_with("name"));
}

#[test]
fn all_changes_are_merged_when_written() {
    let content = b"name,age,city\nAlice,25,Beijing\nBob,30,Paris\nCharlie,35,Rome";
    let mut editor = CsvEditor::open(content, "people.csv", true, b',', 2).unwrap();
    editor.insert_row(0, RowData::from_strs(&["Zed", "1", "A,B"])).unwrap();
    editor.insert_row(2, RowData::from_strs(&["Yan", "2", "C"])).unwrap();
    editor.insert_row(0, RowData::from_strs(&["Xi", "3", "D"])).unwrap();
    editor.insert_row(3, RowData::from_strs(&["Never", "0", "written"])).unwrap();
    editor.delete_row(1).unwrap();
    editor.edit_cell(2, 2, "Ro\"me".to_string()).unwrap();
    editor.edit_cell(0, 1, "26".to_string()).unwrap();
    editor.delete_col(1).unwrap();
    editor.append_row(RowData::from_strs(&["Dora", "Oslo"])).unwrap();
    let (text, rows) = editor.render(content, &WriteOptions::default()).unwrap();
    assert_eq!(
        text,
        "name,city\nZed,\"A,B\"\nXi,D\nAlice,Beijing\nYan,C\nCharlie,\"Ro\"\"me\"\nDora\n"
    );
    assert_eq!(rows, 6);
    let bare = WriteOptions::new().with_headers(false).with_line_ending(LineEnding::Cr).with_delimiter(b';');
    let (text, rows) = editor.render(content, &bare).unwrap();
    assert_eq!(text, "Zed;A,B\rXi;D\rAlice;Beijing\rYan;C\rCharlie;\"Ro\"\"me\"\rDora\r");
    assert_eq!(rows, 6);
    assert!(matches!(editor.render(b"", &bare), Err(CsvError::Format(_))));
}
