use csv_tool::csv::export::{escape_csv_field, escape_json_string, path_extension};
use csv_tool::csv::exporter::{json_value, json_value_of};
use csv_tool::csv::number::is_number_text;
use csv_tool::csv::{
    CsvReader, ExportFormat, ExportOptions, Exporter, SearchOptions, SearchPattern,
};

#[test]
fn test_escape_json_string() {
    assert_eq!(escape_json_string("hello"), "hello");
    assert_eq!(escape_json_string("he\"llo"), "he\\\"llo");
    assert_eq!(escape_json_string("he\\llo"), "he\\\\llo");
    assert_eq!(escape_json_string("he\nllo"), "he\\nllo");
}

#[test]
fn json_escapes_of_control_characters() {
    assert_eq!(escape_json_string("a\tb\rc"), "a\\tb\\rc");
    assert_eq!(escape_json_string("\u{1}"), "\\u0001");
    assert_eq!(escape_json_string("\u{1f}\u{7f}\u{9f}"), "\\u001f\\u007f\\u009f");
    assert_eq!(escape_json_string("\u{a0}\u{e9}~"), "\u{a0}\u{e9}~");
    assert_eq!(escape_json_string(""), "");
}

#[test]
fn export_test_escape_csv_field() {
    assert_eq!(escape_csv_field("hello", b','), "hello");
    assert_eq!(escape_csv_field("he,llo", b','), "\"he,llo\"");
    assert_eq!(escape_csv_field("he\"llo", b','), "\"he\"\"llo\"");
}

#[test]
fn fields_with_line_breaks_or_the_delimiter_are_quoted() {
    assert_eq!(escape_csv_field("a\nb", b','), "\"a\nb\"");
    assert_eq!(escape_csv_field("a\rb", b','), "\"a\rb\"");
    assert_eq!(escape_csv_field("a\tb", b'\t'), "\"a\tb\"");
    assert_eq!(escape_csv_field("a\tb", b','), "a\tb");
    assert_eq!(escape_csv_field("", b','), "");
    assert_eq!(escape_csv_field("\"", b','), "\"\"\"\"");
}

#[test]
fn test_export_format_from_extension() {
    assert_eq!(ExportFormat::from_extension("test.json"), Some(ExportFormat::Json));
    assert_eq!(ExportFormat::from_extension("test.jsonl"), Some(ExportFormat::JsonLines));
    assert_eq!(ExportFormat::from_extension("test.tsv"), Some(ExportFormat::Tsv));
}

#[test]
fn test_export_format_detection() {
    assert_eq!(ExportFormat::from_extension("test.json"), Some(ExportFormat::Json));
    assert_eq!(ExportFormat::from_extension("test.jsonl"), Some(ExportFormat::JsonLines));
    assert_eq!(ExportFormat::from_extension("test.tsv"), Some(ExportFormat::Tsv));
    assert_eq!(ExportFormat::from_extension("test.csv"), Some(ExportFormat::Csv));
}

#[test]
fn extensions_are_read_like_paths() {
    assert_eq!(ExportFormat::from_extension("dir.json/file"), None);
    assert_eq!(ExportFormat::from_extension("out/DATA.NDJSON"), Some(ExportFormat::JsonLines));
    assert_eq!(ExportFormat::from_extension(".json"), None);
    assert_eq!(ExportFormat::from_extension("a.b.Csv"), Some(ExportFormat::Csv));
    assert_eq!(ExportFormat::from_extension("test.txt"), None);
    assert_eq!(ExportFormat::from_extension("test"), None);
    assert_eq!(ExportFormat::from_lowercase("json"), Some(ExportFormat::Json));
    assert_eq!(ExportFormat::from_lowercase("JSON"), None);
    assert_eq!(path_extension("a/b.c/d.tar.gz"), Some("gz".to_string()));
    assert_eq!(path_extension("a/b.c/d"), None);
    assert_eq!(path_extension("a."), Some(String::new()));
    assert_eq!(path_extension(""), None);
}

#[test]
fn formats_have_names_and_extensions() {
    assert_eq!(ExportFormat::Json.extension(), "json");
    assert_eq!(ExportFormat::JsonLines.extension(), "jsonl");
    assert_eq!(ExportFormat::Csv.extension(), "csv");
    assert_eq!(ExportFormat::Tsv.extension(), "tsv");
    assert_eq!(ExportFormat::Json.name(), "JSON");
    assert_eq!(ExportFormat::JsonLines.name(), "JSON Lines");
    assert_eq!(ExportFormat::Csv.name(), "CSV");
    assert_eq!(ExportFormat::Tsv.name(), "TSV");
}

fn people() -> Vec<u8> {
    b"id,name,age,city\n1,Alice,25,Beijing\n2,Bob,30,Shanghai\n3,Charlie,28,Guangzhou\n".to_vec()
}

#[test]
fn test_json_value() {
    assert_eq!(json_value("123"), "123");
    assert_eq!(json_value("12.34"), "12.34");
    assert_eq!(json_value("true"), "true");
    assert_eq!(json_value("false"), "false");
    assert_eq!(json_value("hello"), "\"hello\"");
    assert_eq!(json_value(""), "null");
}

#[test]
fn json_values_of_every_kind() {
    assert_eq!(json_value("TRUE"), "true");
    assert_eq!(json_value("False"), "false");
    assert_eq!(json_value("NULL"), "null");
    assert_eq!(json_value("-7"), "-7");
    assert_eq!(json_value("+1.5e-3"), "+1.5e-3");
    assert_eq!(json_value("say \"hi\""), "\"say \\\"hi\\\"\"");
    assert_eq!(json_value("1,5"), "\"1,5\"");
    assert_eq!(json_value_of("Yes", "true"), "true");
    assert_eq!(json_value_of("7", "true"), "7");
    assert_eq!(json_value_of("x", "x"), "\"x\"");
}

#[test]
fn numbers_are_told_from_other_text() {
    for text in ["0", "123", "-1", "+1", "1.", ".5", "1.5", "1e5", "1E5", "1e+5", "1.5e-10", "inf", "-inf",
        "+Infinity", "NaN", "nan", "00012", "9999999999999999999999"] {
        assert!(is_number_text(text), "{}", text);
        assert!(text.parse::<f64>().is_ok(), "{}", text);
    }
    for text in ["", "+", "-", ".", "e5", "1e", "1e+", "1.5.2", "1 ", " 1", "1,5", "0x10", "1_000", "infinit",
        "nanx", "--1", "1e5.5", "abc", "1f", "\u{661}"] {
        assert!(!is_number_text(text), "{}", text);
        assert!(text.parse::<f64>().is_err() && text.parse::<i64>().is_err(), "{}", text);
    }
}

#[test]
fn test_export_json() {
    let data = people();
    let reader = CsvReader::open(&data, "people.csv", true, b',', 10, None).unwrap();
    let options = ExportOptions::new(ExportFormat::Json);
    let exporter = Exporter::new(&reader, options);
    let (content, rows_exported, cols_exported) = exporter.render().unwrap();
    assert_eq!(rows_exported, 3);
    assert_eq!(cols_exported, 4);
    assert!(content.starts_with("["));
    assert!(content.contains("\"name\":\"Alice\""));
    assert!(content.contains("\"city\":\"Beijing\""));
    assert_eq!(
        content,
        "[{\"id\":1,\"name\":\"Alice\",\"age\":25,\"city\":\"Beijing\"},\
         {\"id\":2,\"name\":\"Bob\",\"age\":30,\"city\":\"Shanghai\"},\
         {\"id\":3,\"name\":\"Charlie\",\"age\":28,\"city\":\"Guangzhou\"}]\n"
    );
}

#[test]
fn pretty_json_is_spread_over_lines() {
    let data = b"a,b\n1,x\n,true\n".to_vec();
    let reader = CsvReader::open(&data, "t.csv", true, b',', 10, None).unwrap();
    let exporter = Exporter::new(&reader, ExportOptions::default().with_pretty(true));
    let (content, rows, cols) = exporter.render().unwrap();
    assert_eq!(content, "[\n  {\"a\":1,\"b\":\"x\"},\n  {\"a\":null,\"b\":true}\n]\n");
    assert_eq!((rows, cols), (2, 2));
    let empty = b"a,b\n".to_vec();
    let reader = CsvReader::open(&empty, "t.csv", true, b',', 10, None).unwrap();
    let (content, rows, _) = Exporter::new(&reader, ExportOptions::default()).render().unwrap();
    assert_eq!(content, "[]\n");
    assert_eq!(rows, 0);
    let (content, _, _) =
        Exporter::new(&reader, ExportOptions::default().with_pretty(true)).render().unwrap();
    assert_eq!(content, "[\n\n]\n");
}

#[test]
fn test_export_jsonl() {
    let data = people();
    let reader = CsvReader::open(&data, "people.csv", true, b',', 10, None).unwrap();
    let options = ExportOptions::new(ExportFormat::JsonLines);
    let exporter = Exporter::new(&reader, options);
    let (content, rows_exported, _) = exporter.render().unwrap();
    assert_eq!(rows_exported, 3);
    let lines: Vec<&str> = content.lines().collect();
    assert_eq!(lines.len(), 3);
    assert!(lines[0].starts_with("{"));
    assert!(lines[0].ends_with("}"));
    assert_eq!(lines[1], "{\"id\":2,\"name\":\"Bob\",\"age\":30,\"city\":\"Shanghai\"}");
}

#[test]
fn test_export_tsv() {
    let data = people();
    let reader = CsvReader::open(&data, "people.csv", true, b',', 10, None).unwrap();
    let options = ExportOptions::new(ExportFormat::Tsv);
    let exporter = Exporter::new(&reader, options);
    let (content, rows_exported, _) = exporter.render().unwrap();
    assert_eq!(rows_exported, 3);
    assert!(content.contains("\t"));
    assert!(content.contains("id\tname\tage\tcity"));
    assert_eq!(
        content,
        "id\tname\tage\tcity\n1\tAlice\t25\tBeijing\n2\tBob\t30\tShanghai\n3\tCharlie\t28\tGuangzhou\n"
    );
}

#[test]
fn delimited_export_quotes_and_may_drop_the_header() {
    let data = b"a,b\n\"x;y\",\"say \"\"hi\"\"\"\n".to_vec();
    let reader = CsvReader::open(&data, "t.csv", true, b',', 10, None).unwrap();
    let options = ExportOptions::new(ExportFormat::Csv).with_delimiter(b';').with_headers(false);
    let (content, rows, cols) = Exporter::new(&reader, options).render().unwrap();
    assert_eq!(content, "\"x;y\";\"say \"\"hi\"\"\"\n");
    assert_eq!((rows, cols), (1, 2));
}

#[test]
fn test_export_with_columns() {
    let data = people();
    let reader = CsvReader::open(&data, "people.csv", true, b',', 10, None).unwrap();
    let options = ExportOptions::new(ExportFormat::Json).with_columns(vec![0, 1]);
    let exporter = Exporter::new(&reader, options);
    let (content, _, cols_exported) = exporter.render().unwrap();
    assert_eq!(cols_exported, 2);
    assert!(content.contains("\"id\":"));
    assert!(content.contains("\"name\":"));
    assert!(!content.contains("\"city\":"));
    let options = ExportOptions::new(ExportFormat::Csv).with_columns(vec![3, 9, 0]);
    let exporter = Exporter::new(&reader, options);
    assert_eq!(exporter.get_export_headers(), vec!["city", "id"]);
    let (content, _, cols) = exporter.render().unwrap();
    assert_eq!(cols, 2);
    assert_eq!(content, "city,id\nBeijing,1\nShanghai,2\nGuangzhou,3\n");
}

#[test]
fn test_export_with_row_range() {
    let data = people();
    let reader = CsvReader::open(&data, "people.csv", true, b',', 10, None).unwrap();
    let options = ExportOptions::new(ExportFormat::Json).with_row_range(0, 2);
    let exporter = Exporter::new(&reader, options);
    let (content, rows_exported, _) = exporter.render().unwrap();
    assert_eq!(rows_exported, 2);
    assert!(content.contains("Alice"));
    assert!(content.contains("Bob"));
    assert!(!content.contains("Charlie"));
    let ranges = [((1usize, 3usize), 2usize), ((1, 99), 2), ((2, 1), 0), ((3, 5), 0), ((0, 0), 0)];
    for ((start, end), count) in ranges {
        let options = ExportOptions::new(ExportFormat::JsonLines).with_row_range(start, end);
        let (_, rows, _) = Exporter::new(&reader, options).render().unwrap();
        assert_eq!(rows, count);
    }
}

#[test]
fn export_of_what_a_search_finds() {
    let data = people();
    let reader = CsvReader::open(&data, "people.csv", true, b',', 10, None).unwrap();
    let filter = SearchOptions::new(SearchPattern::text("a", true)).with_columns(vec![1, 3]);
    let options = ExportOptions::new(ExportFormat::Csv).with_search_filter(filter).with_columns(vec![1]);
    let (content, rows, cols) = Exporter::new(&reader, options).render().unwrap();
    assert_eq!(content, "name\nBob\nCharlie\n");
    assert_eq!((rows, cols), (2, 1));
    let filter = SearchOptions::new(SearchPattern::text("a", true)).with_columns(vec![1, 3]);
    let options = ExportOptions::new(ExportFormat::Csv)
        .with_search_filter(filter)
        .with_columns(vec![1])
        .with_row_range(1, 5);
    let (content, rows, _) = Exporter::new(&reader, options).render().unwrap();
    assert_eq!(content, "name\nCharlie\n");
    assert_eq!(rows, 1);
}
