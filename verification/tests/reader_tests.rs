use csv_tool::csv::reader::{build_fast_index, count_columns_first_line, read_headers};
use csv_tool::csv::{CsvReader, CsvRecord, RowIndex};
use csv_tool::error::CsvError;

fn create_test_csv(rows: usize) -> Vec<u8> {
    let mut text = String::from("id,name,age,city\n");
    for i in 1..=rows {
        text.push_str(&format!("{},\"Name {}\",{},City {}\n", i, i, 20 + i % 50, i % 10));
    }
    text.into_bytes()
}

fn page_texts(page: &[CsvRecord]) -> Vec<Vec<String>> {
    page.iter().map(|r| r.fields.iter().map(|f| f.to_string()).collect()).collect()
}

#[test]
fn test_basic_read() {
    let data = create_test_csv(100);
    let mut reader = CsvReader::open(&data, "test_basic.csv", true, b',', 10, None).unwrap();
    let info = reader.info();
    assert_eq!(info.total_rows, 100);
    assert_eq!(info.total_cols, 4);
    assert_eq!(info.headers.len(), 4);
    assert_eq!(info.file_size, data.len() as u64);
    assert_eq!(info.file_path, "test_basic.csv");
    let rows = reader.read_page(0, 20).unwrap();
    assert_eq!(rows.len(), 20);
}

#[test]
fn test_page_access() {
    let data = create_test_csv(100);
    let mut reader = CsvReader::open(&data, "test_pages.csv", true, b',', 10, None).unwrap();
    let page0 = reader.read_page(0, 20).unwrap();
    assert_eq!(page0.len(), 20);
    let page1 = reader.read_page(1, 20).unwrap();
    assert_eq!(page1.len(), 20);
    let last_page = reader.read_page(4, 20).unwrap();
    assert_eq!(last_page.len(), 20);
}

#[test]
fn test_index_seek() {
    let data = create_test_csv(1000);
    let mut reader = CsvReader::open(&data, "test_index.csv", true, b',', 100, None).unwrap();
    let page = reader.read_page(25, 20).unwrap();
    assert_eq!(page.len(), 20);
}

#[test]
fn every_page_holds_exactly_its_rows() {
    let data = create_test_csv(1000);
    for g in [1usize, 7, 100, 5000] {
        let mut reader = CsvReader::open(&data, "rows.csv", true, b',', g, None).unwrap();
        for (page, size) in [(0usize, 20usize), (25, 20), (49, 20), (3, 333), (999, 1), (0, 1000), (1, 999)] {
            let rows = page_texts(&reader.read_page(page, size).unwrap());
            let first = page * size;
            let count = size.min(1000 - first);
            assert_eq!(rows.len(), count);
            for (k, row) in rows.iter().enumerate() {
                let n = first + k + 1;
                assert_eq!(row[0], n.to_string());
                assert_eq!(row[1], format!("Name {}", n));
                assert_eq!(row.len(), 4);
            }
        }
        assert!(reader.read_page(50, 20).unwrap().is_empty());
        assert!(reader.read_page(usize::MAX, 2).unwrap().is_empty());
    }
}

#[test]
fn scenario_two_rows_with_header() {
    let data = b"a,b\n1,2\n3,4\n";
    let mut reader = CsvReader::open(data, "s1.csv", true, b',', 1, None).unwrap();
    assert_eq!(reader.info().total_rows, 2);
    assert_eq!(reader.headers(), &vec!["a".to_string(), "b".to_string()]);
    assert_eq!(page_texts(&reader.read_page(0, 10).unwrap()), vec![vec!["1", "2"], vec!["3", "4"]]);
    assert!(reader.read_page(1, 10).unwrap().is_empty());
}

#[test]
fn scenario_byte_order_mark_and_header_only() {
    let data = b"\xEF\xBB\xBFh\n";
    let mut reader = CsvReader::open(data, "s2.csv", true, b',', 1000, None).unwrap();
    assert_eq!(reader.info().total_rows, 0);
    assert_eq!(reader.headers(), &vec!["h".to_string()]);
    assert!(reader.read_page(0, 10).unwrap().is_empty());
}

#[test]
fn scenario_carriage_returns_and_one_anchor() {
    let data = b"x\na\r\na\r\na\r\n";
    let mut reader = CsvReader::open(data, "s3.csv", true, b',', 2, None).unwrap();
    assert_eq!(reader.info().total_rows, 3);
    assert_eq!(reader.index().row_numbers(), &vec![2]);
    assert_eq!(page_texts(&reader.read_page(0, 2).unwrap()), vec![vec!["a"], vec!["a"]]);
    assert_eq!(page_texts(&reader.read_page(1, 2).unwrap()), vec![vec!["a"]]);
}

#[test]
fn scenario_quoted_record_without_header() {
    let data = b"\"hel\"\"lo\",wo,rld\n";
    let mut reader = CsvReader::open(data, "s4.csv", false, b',', 1000, None).unwrap();
    assert_eq!(reader.info().total_rows, 1);
    assert_eq!(reader.info().total_cols, 3);
    assert!(reader.headers().is_empty());
    assert_eq!(page_texts(&reader.read_page(0, 5).unwrap()), vec![vec!["hel\"lo", "wo", "rld"]]);
}

#[test]
fn last_row_without_line_feed_is_read() {
    let data = b"h\nfirst\nsecond\nthird";
    let mut reader = CsvReader::open(data, "tail.csv", true, b',', 2, None).unwrap();
    assert_eq!(reader.info().total_rows, 3);
    assert_eq!(page_texts(&reader.read_page(1, 2).unwrap()), vec![vec!["third"]]);
    assert_eq!(page_texts(&reader.read_page(2, 1).unwrap()), vec![vec!["third"]]);
    assert_eq!(reader.total_pages(2), 2);
    assert_eq!(reader.total_pages(3), 1);
    assert_eq!(reader.total_pages(1), 3);
}

#[test]
fn reading_a_page_twice_gives_the_same_rows() {
    let data = create_test_csv(100);
    let mut reader = CsvReader::open(&data, "twice.csv", true, b',', 10, None).unwrap();
    let first = page_texts(&reader.read_page(2, 20).unwrap());
    let second = page_texts(&reader.read_page(2, 20).unwrap());
    assert_eq!(first, second);
    assert_eq!(first[0][0], "41");
    let other_size = page_texts(&reader.read_page(2, 10).unwrap());
    assert_eq!(other_size.len(), 10);
    assert_eq!(other_size[0][0], "21");
    reader.clear_cache();
    assert_eq!(page_texts(&reader.read_page(2, 20).unwrap()), first);
}

#[test]
fn empty_first_line_cannot_be_opened() {
    assert!(matches!(CsvReader::open(b"", "e.csv", true, b',', 10, None), Err(CsvError::Format(_))));
    assert!(matches!(CsvReader::open(b"", "e.csv", false, b',', 10, None), Err(CsvError::Format(_))));
    assert!(matches!(CsvReader::open(b"\na\n", "e.csv", true, b',', 10, None), Err(CsvError::Format(_))));
    assert!(matches!(read_headers(b"\xEF\xBB\xBF", b','), Err(CsvError::Format(_))));
    assert!(matches!(count_columns_first_line(b"\n", b','), Err(CsvError::Format(_))));
    assert_eq!(count_columns_first_line(b"\r\n", b',').unwrap(), 1);
    assert_eq!(read_headers(b"a,b\r\nc", b',').unwrap(), vec!["a", "b"]);
    assert_eq!(read_headers(b"a;b\rc", b';').unwrap(), vec!["a", "b"]);
    assert_eq!(count_columns_first_line(b"a,b,c", b',').unwrap(), 3);
}

#[test]
fn fast_open_of_a_small_source_is_complete() {
    let data = create_test_csv(100);
    let mut reader = CsvReader::open_fast(&data, "fast.csv", true, b',', 10, None).unwrap();
    assert!(reader.is_index_complete());
    assert!(reader.row_estimate().is_none());
    assert_eq!(reader.info().total_rows, 100);
    assert_eq!(reader.read_page(0, 20).unwrap().len(), 20);
}

#[test]
fn fast_open_of_a_source_above_its_sample_is_partial() {
    let mut data = b"id,text\n".to_vec();
    let mut rows = 0usize;
    while data.len() < 512 * 1024 {
        rows += 1;
        data.extend_from_slice(format!("{:07},{}\n", rows, "x".repeat(800)).as_bytes());
    }
    assert!(rows > 600);
    assert!(data.len() <= 1024 * 1024);
    let reader = CsvReader::open_fast(&data, "half.csv", true, b',', 100, None).unwrap();
    assert!(!reader.is_index_complete());
    assert_eq!(reader.index().total_rows(), 500);
    let estimate = *reader.row_estimate().unwrap();
    assert!(!estimate.is_exact);
    assert_eq!(estimate.sampled_bytes, 256 * 1024);
    assert_eq!(estimate.total_bytes, data.len());
    assert_eq!(reader.info().total_rows, estimate.estimated_rows.max(500));
    assert_eq!(reader.info().total_rows, rows);
    assert_eq!(reader.info().file_size, data.len() as u64);
    assert_eq!(reader.info().file_path, "half.csv");
}

#[test]
fn fast_open_of_a_source_with_few_long_rows_is_complete_with_an_estimate() {
    let mut data = b"id,text\n".to_vec();
    for row in 0..40 {
        data.extend_from_slice(format!("{},{}\n", row, "y".repeat(10_000)).as_bytes());
    }
    assert!(data.len() > 256 * 1024);
    let mut reader = CsvReader::open_fast(&data, "long.csv", true, b',', 10, None).unwrap();
    assert!(reader.is_index_complete());
    assert_eq!(reader.index().total_rows(), 40);
    let estimate = *reader.row_estimate().unwrap();
    assert!(!estimate.is_exact);
    assert_eq!(reader.info().total_rows, estimate.estimated_rows.max(40));
    assert_eq!(reader.read_page(1, 30).unwrap().len(), 10);
}

#[test]
fn fast_open_of_a_large_source_estimates_and_is_completed_later() {
    let mut data = b"id,text\n".to_vec();
    let mut rows = 0usize;
    while data.len() <= 2 * 1024 * 1024 {
        rows += 1;
        data.extend_from_slice(format!("{:07},some text to fill the row\n", rows).as_bytes());
    }
    let (index, total, estimate) = build_fast_index(&data, true, 100).unwrap();
    assert!(!index.is_complete());
    assert_eq!(index.total_rows(), 500);
    assert_eq!(index.index_count(), 5);
    let estimate = estimate.unwrap();
    assert!(!estimate.is_exact);
    assert_eq!(estimate.sampled_bytes, 256 * 1024);
    assert_eq!(estimate.total_bytes, data.len());
    assert_eq!(total, estimate.estimated_rows.max(500));
    assert_eq!(total, rows);

    let mut reader = CsvReader::open_fast(&data, "big.csv", true, b',', 100, None).unwrap();
    assert!(!reader.is_index_complete());
    assert!(reader.row_estimate().is_some());
    assert_eq!(reader.headers(), &vec!["id".to_string(), "text".to_string()]);
    let before = page_texts(&reader.read_page(0, 20).unwrap());
    assert_eq!(before.len(), 20);
    assert_eq!(before[19][0], "0000020");
    assert!(matches!(
        reader.read_page(100, 20),
        Err(CsvError::IndexOutOfBounds { row: 2000, total_rows: 500 })
    ));

    let mut index: RowIndex = reader.index().clone();
    assert!(index.continue_build(&data, None, None).unwrap());
    reader.update_index(index);
    assert!(reader.is_index_complete());
    assert!(reader.row_estimate().is_none());
    assert_eq!(reader.info().total_rows, rows);
    assert_eq!(page_texts(&reader.read_page(0, 20).unwrap()), before);
    let later = page_texts(&reader.read_page(100, 20).unwrap());
    assert_eq!(later[0][0], "0002001");
}

#[test]
fn a_stored_index_is_used_as_it_is() {
    let data = create_test_csv(50);
    let built = RowIndex::build(&data, true, 10).unwrap();
    let stored = RowIndex::from_parts(
        built.offsets().clone(),
        built.row_numbers().clone(),
        built.granularity(),
        built.total_rows(),
        built.is_complete(),
        built.indexed_bytes(),
        built.data_start(),
    )
    .unwrap();
    let mut reader = CsvReader::open(&data, "stored.csv", true, b',', 10, Some(stored)).unwrap();
    assert_eq!(reader.info().total_rows, 50);
    assert_eq!(reader.delimiter(), b',');
    let rows = page_texts(&reader.read_page(4, 10).unwrap());
    assert_eq!(rows[0][0], "41");
    assert_eq!(rows[9][0], "50");
}
