use csv_tool::csv::pattern::find_all;
use csv_tool::csv::search::verdict;
use csv_tool::csv::{
    highlight_matches, CsvReader, CsvRecord, MatchInfo, SearchOptions, SearchPattern,
    SearchResult, Searcher,
};
use csv_tool::error::CsvError;
#[test]
fn test_highlight_matches() {
    let text = "hello world";
    let positions = vec![(0, 5)];
    let highlighted = highlight_matches(text, &positions);
    assert!(highlighted.contains("\x1b[1;33m"));
    assert!(highlighted.contains("hello"));
}

#[test]
fn highlights_are_set_around_each_range() {
    assert_eq!(highlight_matches("hello world", &[(0, 5)]), "\x1b[1;33mhello\x1b[0m world");
    assert_eq!(
        highlight_matches("test1 test2", &[(0, 4), (6, 10)]),
        "\x1b[1;33mtest\x1b[0m1 \x1b[1;33mtest\x1b[0m2"
    );
    assert_eq!(highlight_matches("plain", &[]), "plain");
    assert_eq!(highlight_matches("abc", &[(1, 3)]), "a\x1b[1;33mbc\x1b[0m");
    assert_eq!(highlight_matches("\u{e9}t\u{e9}", &[(2, 3)]), "\u{e9}\x1b[1;33mt\x1b[0m\u{e9}");
    assert_eq!(highlight_matches("aaa", &[(0, 2), (1, 3)]), "\x1b[1;33maa\x1b[0m\x1b[1;33maa\x1b[0m");
}

#[test]
fn search_results_know_their_columns() {
    let result = SearchResult {
        row_number: 3,
        matches: vec![
            MatchInfo { column: 2, positions: vec![(0, 1)] },
            MatchInfo { column: 0, positions: vec![(1, 2), (4, 5)] },
        ],
        record: CsvRecord::parse_line(b"a,b,c", b',').to_owned(),
    };
    assert!(result.has_match_in_column(0));
    assert!(!result.has_match_in_column(1));
    assert!(result.has_match_in_column(2));
    assert_eq!(result.matched_columns(), vec![2, 0]);
}


fn people() -> Vec<u8> {
    let mut text = String::from("id,name,email,city\n");
    text.push_str("1,Alice,alice@example.com,Beijing\n");
    text.push_str("2,Bob,bob@test.org,Shanghai\n");
    text.push_str("3,Charlie,charlie@example.com,Guangzhou\n");
    text.push_str("4,David,david@test.org,Shenzhen\n");
    text.push_str("5,Eve,eve@example.com,Beijing\n");
    text.into_bytes()
}

#[test]
fn search_test_text_search() {
    let pattern = SearchPattern::text("hello", true);
    assert!(pattern.is_match("hello world", true));
    assert!(!pattern.is_match("HELLO world", true));
}

#[test]
fn test_text_search_case_insensitive() {
    let pattern = SearchPattern::text("hello", false);
    assert!(pattern.is_match("HELLO world", false));
    assert!(pattern.is_match("Hello World", false));
}

#[test]
fn search_test_regex_search() {
    let pattern = SearchPattern::regex(r"\d+", true).unwrap();
    assert!(pattern.is_match("abc123def", true));
    assert!(!pattern.is_match("abcdef", true));
}

#[test]
fn test_find_matches() {
    let pattern = SearchPattern::text("test", true);
    let matches = pattern.find_matches("test1 test2 test3", true);
    assert_eq!(matches.len(), 3);
    assert_eq!(matches[0], (0, 4));
    assert_eq!(matches[1], (6, 10));
    assert_eq!(matches[2], (12, 16));
}

#[test]
fn every_place_of_a_piece_of_text_is_found() {
    assert_eq!(find_all(b"aaaa", b"aa"), vec![(0, 2), (1, 3), (2, 4)]);
    assert_eq!(find_all(b"abcabc", b"bc"), vec![(1, 3), (4, 6)]);
    assert_eq!(find_all(b"abc", b"abcd"), vec![]);
    assert_eq!(find_all(b"abc", b"x"), vec![]);
    assert_eq!(find_all(b"", b"x"), vec![]);
    assert_eq!(find_all(b"ab", b""), vec![(0, 0), (1, 1), (2, 2)]);
    assert_eq!(find_all(b"abc", b"abc"), vec![(0, 3)]);
    assert_eq!(find_all(b"xab", b"ab"), vec![(1, 3)]);
    let pattern = SearchPattern::text("\u{e9}", true);
    assert_eq!(pattern.find_matches("\u{e9}a\u{e9}", true), vec![(0, 2), (3, 5)]);
}

#[test]
fn regular_expressions_are_checked_and_matched() {
    assert!(matches!(SearchPattern::regex("(", true), Err(CsvError::Format(_))));
    let pattern = SearchPattern::regex("b+", true).unwrap();
    assert_eq!(pattern.find_matches("abbcbB", true), vec![(1, 3), (4, 5)]);
    let pattern = SearchPattern::regex("b+", false).unwrap();
    assert_eq!(pattern.find_matches("abbcbB", false), vec![(1, 3), (4, 6)]);
    assert!(pattern.is_match("B", false));
    let copy = pattern.clone();
    assert_eq!(copy.find_matches("abbcbB", false), vec![(1, 3), (4, 6)]);
}

#[test]
fn a_search_gives_its_verdict_on_a_row() {
    let record = CsvRecord::parse_line(b"1,Alice,alice@example.com,Beijing", b',');
    let searcher = Searcher::new(SearchOptions::new(SearchPattern::text("ei", true)));
    let found = searcher.matches_record(&record).unwrap();
    assert_eq!(found.len(), 1);
    assert_eq!(found[0].column, 3);
    assert_eq!(found[0].positions, vec![(1, 3)]);
    assert!(searcher.is_match(&record));

    let options = SearchOptions::new(SearchPattern::text("a", true)).with_columns(vec![3, 1, 9]);
    let searcher = Searcher::new(options);
    assert!(searcher.matches_record(&record).is_none());
    assert!(!searcher.is_match(&record));
    assert_eq!(searcher.get_options().columns, Some(vec![3, 1, 9]));

    let options = SearchOptions::new(SearchPattern::text("a", false))
        .with_columns(vec![3, 1, 9])
        .with_case_sensitive(false);
    let found = Searcher::new(options).matches_record(&record).unwrap();
    assert_eq!(found.len(), 1);
    assert_eq!(found[0].column, 1);
    assert_eq!(found[0].positions, vec![(0, 1)]);

    let options = SearchOptions::new(SearchPattern::text("zzz", true)).with_invert_match(true);
    let searcher = Searcher::new(options);
    assert_eq!(searcher.matches_record(&record).unwrap().len(), 0);
    assert!(searcher.is_match(&record));
    let options = SearchOptions::new(SearchPattern::text("Alice", true)).with_invert_match(true);
    assert!(Searcher::new(options).matches_record(&record).is_none());

    let some = vec![MatchInfo { column: 0, positions: vec![(0, 1)] }];
    assert!(verdict(some.clone(), true).is_none());
    assert_eq!(verdict(some, false).unwrap().len(), 1);
    assert!(verdict(Vec::new(), false).is_none());
    assert!(verdict(Vec::new(), true).unwrap().is_empty());
}

#[test]
fn search_test_test_text_search() {
    let data = people();
    let reader = CsvReader::open(&data, "people.csv", true, b',', 10, None).unwrap();
    let pattern = SearchPattern::text("Beijing", true);
    let options = SearchOptions::new(pattern);
    let results = reader.search(&options).unwrap();
    assert_eq!(results.len(), 2);
    assert_eq!(results[0].row_number, 0);
    assert_eq!(results[1].row_number, 4);
    assert_eq!(results[1].record.fields[1], "Eve");
    assert_eq!(results[1].matches[0].column, 3);
    assert_eq!(results[1].matches[0].positions, vec![(0, 7)]);
}

#[test]
fn search_test_test_regex_search() {
    let data = people();
    let reader = CsvReader::open(&data, "people.csv", true, b',', 10, None).unwrap();
    let pattern = SearchPattern::regex(r"@example\.com", true).unwrap();
    let options = SearchOptions::new(pattern);
    let results = reader.search(&options).unwrap();
    assert_eq!(results.len(), 3);
}

#[test]
fn test_search_in_column() {
    let data = people();
    let reader = CsvReader::open(&data, "people.csv", true, b',', 10, None).unwrap();
    let pattern = SearchPattern::text("e", false);
    let options = SearchOptions::new(pattern).with_columns(vec![1]).with_case_sensitive(false);
    let results = reader.search(&options).unwrap();
    assert_eq!(results.len(), 3);
}

#[test]
fn test_search_case_insensitive() {
    let data = people();
    let reader = CsvReader::open(&data, "people.csv", true, b',', 10, None).unwrap();
    let pattern = SearchPattern::text("BEIJING", false);
    let options = SearchOptions::new(pattern).with_case_sensitive(false);
    let results = reader.search(&options).unwrap();
    assert_eq!(results.len(), 2);
}

#[test]
fn test_search_invert_match() {
    let data = people();
    let reader = CsvReader::open(&data, "people.csv", true, b',', 10, None).unwrap();
    let pattern = SearchPattern::text("Beijing", true);
    let options = SearchOptions::new(pattern).with_invert_match(true);
    let results = reader.search(&options).unwrap();
    assert_eq!(results.len(), 3);
    assert!(results.iter().all(|r| r.matches.is_empty()));
}

#[test]
fn test_count_matches() {
    let data = people();
    let reader = CsvReader::open(&data, "people.csv", true, b',', 10, None).unwrap();
    let pattern = SearchPattern::text("example", true);
    let options = SearchOptions::new(pattern);
    let count = reader.count_matches(&options).unwrap();
    assert_eq!(count, 3);
    let limited = SearchOptions::new(SearchPattern::text("example", true)).with_max_results(1);
    assert_eq!(reader.count_matches(&limited).unwrap(), 3);
}

#[test]
fn test_search_max_results() {
    let data = people();
    let reader = CsvReader::open(&data, "people.csv", true, b',', 10, None).unwrap();
    let pattern = SearchPattern::text("example", true);
    let options = SearchOptions::new(pattern).with_max_results(2);
    let results = reader.search(&options).unwrap();
    assert_eq!(results.len(), 2);
    let none = SearchOptions::new(SearchPattern::text("example", true)).with_max_results(0);
    assert!(reader.search(&none).unwrap().is_empty());
}

#[test]
fn a_search_reads_the_last_row_without_line_feed() {
    let data = b"h\nax\nb\nxa";
    let reader = CsvReader::open(data, "t.csv", true, b',', 10, None).unwrap();
    let options = SearchOptions::new(SearchPattern::text("a", true));
    let results = reader.search(&options).unwrap();
    assert_eq!(results.len(), 2);
    assert_eq!(results[0].row_number, 0);
    assert_eq!(results[1].row_number, 2);
    assert_eq!(results[1].matches[0].positions, vec![(1, 2)]);
    assert_eq!(reader.count_matches(&options).unwrap(), 2);
}
