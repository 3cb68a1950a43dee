use csv_tool::csv::estimate::{count_rows_exact, sample_budget};
use csv_tool::csv::index::{data_start, RowIndex};
use csv_tool::csv::scan::{find_byte, find_newlines, newlines_in};
use csv_tool::error::CsvError;
use std::sync::atomic::{AtomicBool, AtomicUsize, Ordering};

fn numbered_rows(rows: usize) -> Vec<u8> {
    let mut text = String::from("id,name,age\n");
    for i in 1..=rows {
        text.push_str(&format!("{},Name {},{}\n", i, i, 20 + i % 50));
    }
    text.into_bytes()
}

fn same_index(a: &RowIndex, b: &RowIndex) -> bool {
    a.offsets() == b.offsets()
        && a.row_numbers() == b.row_numbers()
        && a.total_rows() == b.total_rows()
        && a.granularity() == b.granularity()
        && a.is_complete() == b.is_complete()
        && a.indexed_bytes() == b.indexed_bytes()
        && a.data_start() == b.data_start()
}

#[test]
fn test_build_index() {
    let content = b"header1,header2\nrow1,col1\nrow2,col2\nrow3,col3\n";
    let index = RowIndex::build(content, true, 1).unwrap();
    assert_eq!(index.total_rows(), 3);
    assert_eq!(index.index_count(), 3);
    let offset = index.seek_to_row(1).unwrap();
    assert!(offset > 0);
}

#[test]
fn test_index_file_path() {
    assert_eq!(RowIndex::index_file_path("test.csv"), "test.csv.idx");
    assert_eq!(RowIndex::index_file_path("data/test.csv"), "data/test.csv.idx");
}

#[test]
fn index_file_path_keeps_any_extension() {
    assert_eq!(RowIndex::index_file_path("a.tsv"), "a.tsv.idx");
    assert_eq!(RowIndex::index_file_path("plain"), "plain.idx");
}

#[test]
fn scanner_finds_every_line_feed() {
    assert_eq!(find_newlines(b"a\nbb\n\nc"), vec![1, 4, 5]);
    assert_eq!(find_newlines(b""), Vec::<usize>::new());
    assert_eq!(newlines_in(b"a\nbb\n\nc", 2, 5), vec![4]);
    assert_eq!(newlines_in(b"a\nbb\n\nc", 2, 100), vec![4, 5]);
    assert_eq!(find_byte(b"a\nbb\n", b'\n', 2), Some(4));
    assert_eq!(find_byte(b"a\nbb\n", b'\n', 5), None);
    assert_eq!(find_byte(b"a\nbb\n", b'\n', 99), None);
}

#[test]
fn data_start_skips_mark_and_header() {
    assert_eq!(data_start(b"a,b\n1,2\n", true), 4);
    assert_eq!(data_start(b"a,b\n1,2\n", false), 0);
    assert_eq!(data_start(b"\xEF\xBB\xBFh\n", true), 5);
    assert_eq!(data_start(b"\xEF\xBB\xBFh\n", false), 3);
    assert_eq!(data_start(b"header only", true), 0);
    assert_eq!(data_start(b"", true), 0);
}

#[test]
fn anchors_are_recorded_every_g_rows() {
    let data = b"x\na\r\na\r\na\r\n";
    let index = RowIndex::build(data, true, 2).unwrap();
    assert_eq!(index.total_rows(), 3);
    assert_eq!(index.row_numbers(), &vec![2]);
    assert_eq!(index.offsets(), &vec![5]);
    assert!(index.is_complete());
    assert_eq!(index.indexed_bytes(), data.len() as u64);
    assert_eq!(index.data_start(), 2);
}

#[test]
fn anchors_increase_and_are_multiples_of_granularity() {
    let data = numbered_rows(1000);
    for g in [1usize, 3, 7, 100, 999, 1000, 1001] {
        let index = RowIndex::build(&data, true, g).unwrap();
        assert_eq!(index.total_rows(), 1000);
        assert_eq!(index.index_count(), 1000 / g);
        let rows = index.row_numbers();
        let offsets = index.offsets();
        for i in 0..rows.len() {
            assert_eq!(rows[i], (i + 1) * g);
            assert_eq!(rows[i] % g, 0);
            if i > 0 {
                assert!(rows[i - 1] < rows[i]);
                assert!(offsets[i - 1] < offsets[i]);
            }
            let off = offsets[i] as usize;
            assert_eq!(data[off - 1], b'\n');
        }
    }
}

#[test]
fn row_totals_with_and_without_trailing_line_feed() {
    assert_eq!(RowIndex::build(b"a\nb\nc\n", false, 10).unwrap().total_rows(), 3);
    assert_eq!(RowIndex::build(b"a\nb\nc", false, 10).unwrap().total_rows(), 3);
    assert_eq!(RowIndex::build(b"h\na\nb\nc", true, 10).unwrap().total_rows(), 3);
    assert_eq!(RowIndex::build(b"h\n", true, 10).unwrap().total_rows(), 0);
    assert_eq!(RowIndex::build(b"", false, 10).unwrap().total_rows(), 0);
    assert_eq!(RowIndex::build(b"\n\n", false, 10).unwrap().total_rows(), 2);
    assert_eq!(RowIndex::build(b"one line", false, 10).unwrap().total_rows(), 1);
    assert_eq!(count_rows_exact(b"h\na\nb\nc", true), 3);
    assert_eq!(count_rows_exact(b"h\na\nb\nc\n", true), 3);
    assert_eq!(count_rows_exact(b"", true), 0);
}

#[test]
fn every_way_of_building_gives_the_same_index() {
    let data = numbered_rows(2500);
    for g in [1usize, 10, 64, 1000] {
        let full = RowIndex::build(&data, true, g).unwrap();
        let serial = RowIndex::build_with_progress(&data, true, g, None).unwrap();
        let parallel = RowIndex::build_parallel(&data, true, g).unwrap();
        let (mut resumed, complete) = RowIndex::build_partial(&data, true, g, Some(500)).unwrap();
        assert!(!complete);
        assert!(!resumed.is_complete());
        assert_eq!(resumed.total_rows(), 500);
        assert_eq!(resumed.continue_build(&data, None, None).unwrap(), true);
        assert!(same_index(&full, &serial));
        assert!(same_index(&full, &parallel));
        assert!(same_index(&full, &resumed));
        assert_eq!(full.total_rows(), 2500);
    }
}

#[test]
fn rebuilding_gives_the_same_anchors() {
    let data = numbered_rows(10_000);
    let first = RowIndex::build(&data, true, 100).unwrap();
    let second = RowIndex::build(&data, true, 100).unwrap();
    assert_eq!(first.total_rows(), 10_000);
    assert_eq!(first.index_count(), 100);
    assert!(same_index(&first, &second));
}

#[test]
fn partial_build_stops_at_the_limit() {
    let data = b"a\nb\nc\nd\n";
    let (index, complete) = RowIndex::build_partial(data, false, 2, Some(3)).unwrap();
    assert!(!complete);
    assert_eq!(index.total_rows(), 3);
    assert_eq!(index.indexed_bytes(), 6);
    assert_eq!(index.row_numbers(), &vec![2]);
    assert_eq!(index.offsets(), &vec![2]);

    let (index, complete) = RowIndex::build_partial(data, false, 2, Some(0)).unwrap();
    assert!(!complete);
    assert_eq!(index.total_rows(), 1);

    let (index, complete) = RowIndex::build_partial(data, false, 2, Some(5)).unwrap();
    assert!(complete);
    assert_eq!(index.total_rows(), 4);

    let (index, complete) = RowIndex::build_partial(data, false, 2, None).unwrap();
    assert!(complete);
    assert_eq!(index.total_rows(), 4);
    assert_eq!(index.index_count(), 2);
}

#[test]
fn continue_build_honours_the_stop_request() {
    let data = numbered_rows(100);
    let (mut index, _) = RowIndex::build_partial(&data, true, 10, Some(20)).unwrap();
    let stop = AtomicBool::new(true);
    let progress = AtomicUsize::new(0);
    assert_eq!(index.continue_build(&data, Some(&stop), Some(&progress)).unwrap(), false);
    assert!(!index.is_complete());
    assert_eq!(index.total_rows(), 20);
    stop.store(false, Ordering::Relaxed);
    assert_eq!(index.continue_build(&data, Some(&stop), Some(&progress)).unwrap(), true);
    assert!(index.is_complete());
    assert_eq!(index.total_rows(), 100);
    assert_eq!(progress.load(Ordering::Relaxed), data.len());
    assert_eq!(index.continue_build(&data, None, None).unwrap(), true);
    assert_eq!(index.total_rows(), 100);
}

#[test]
fn continue_build_from_an_empty_index() {
    let data = b"a\nb\nc";
    let mut index = RowIndex::new(2);
    assert!(!index.is_complete());
    assert_eq!(index.total_rows(), 0);
    assert!(index.continue_build(data, None, None).unwrap());
    assert_eq!(index.total_rows(), 3);
    assert_eq!(index.row_numbers(), &vec![2]);
    assert_eq!(index.offsets(), &vec![2]);
}

#[test]
fn seek_answers_with_the_nearest_anchor_below() {
    let data = numbered_rows(1000);
    let index = RowIndex::build(&data, true, 100).unwrap();
    let start = data_start(&data, true) as u64;
    assert_eq!(index.seek_to_row_with_info(0).unwrap(), (start, 0));
    assert_eq!(index.seek_to_row_with_info(99).unwrap(), (start, 0));
    let (off, anchor) = index.seek_to_row_with_info(100).unwrap();
    assert_eq!(anchor, 100);
    assert_eq!(off, index.offsets()[0]);
    let (off, anchor) = index.seek_to_row_with_info(250).unwrap();
    assert_eq!(anchor, 200);
    assert_eq!(off, index.offsets()[1]);
    let (off, anchor) = index.seek_to_row_with_info(999).unwrap();
    assert_eq!(anchor, 900);
    assert_eq!(off, index.offsets()[8]);
    for r in 0..1000 {
        let (off, anchor) = index.seek_to_row_with_info(r).unwrap();
        assert!(anchor <= r);
        assert!(r - anchor < 100);
        assert_eq!(anchor % 100, 0);
        assert_eq!(index.seek_to_row(r).unwrap(), off);
        let off = off as usize;
        assert!(off == start as usize || data[off - 1] == b'\n');
        let preceding = data[start as usize..off].iter().filter(|&&b| b == b'\n').count();
        assert_eq!(preceding, if anchor == 0 { 0 } else { anchor - 1 });
    }
}

#[test]
fn seek_refuses_rows_that_are_not_known() {
    let index = RowIndex::build(b"a\nb\n", false, 1).unwrap();
    match index.seek_to_row_with_info(2) {
        Err(CsvError::IndexOutOfBounds { row, total_rows }) => {
            assert_eq!(row, 2);
            assert_eq!(total_rows, 2);
        }
        _ => panic!("row 2 must be refused"),
    }
    assert!(matches!(index.seek_to_row(7), Err(CsvError::IndexOutOfBounds { row: 7, total_rows: 2 })));
    let empty = RowIndex::build(b"", false, 1).unwrap();
    assert!(matches!(empty.seek_to_row(0), Err(CsvError::IndexOutOfBounds { row: 0, total_rows: 0 })));
}

#[test]
fn estimate_counts_small_sources_exactly() {
    let data = numbered_rows(100);
    let estimate = RowIndex::estimate_rows(&data, true, 1 << 20);
    assert!(estimate.is_exact);
    assert_eq!(estimate.estimated_rows, 100);
    assert_eq!(estimate.sampled_bytes, data.len());
    assert_eq!(estimate.total_bytes, data.len());
}

#[test]
fn estimate_scales_the_sample_up() {
    let mut data = Vec::new();
    for _ in 0..1000 {
        data.extend_from_slice(b"123456789\n");
    }
    let estimate = RowIndex::estimate_rows(&data, false, 1000);
    assert!(!estimate.is_exact);
    assert_eq!(estimate.sampled_bytes, 1000);
    assert_eq!(estimate.total_bytes, 10_000);
    assert_eq!(estimate.estimated_rows, 1000);

    let estimate = RowIndex::estimate_rows(&data, false, 15);
    assert_eq!(estimate.sampled_bytes, 15);
    assert_eq!(estimate.estimated_rows, 667);

    let estimate = RowIndex::estimate_rows(&data, false, 5);
    assert!(!estimate.is_exact);
    assert_eq!(estimate.estimated_rows, 1);

    let estimate = RowIndex::estimate_rows(&data, true, 1000);
    assert_eq!(estimate.sampled_bytes, 1000);
    assert_eq!(estimate.estimated_rows, 999);
}

#[test]
fn sample_budget_follows_the_file_size() {
    assert_eq!(sample_budget(0), 256 * 1024);
    assert_eq!(sample_budget(10 * 1024 * 1024 - 1), 256 * 1024);
    assert_eq!(sample_budget(10 * 1024 * 1024), 128 * 1024);
    assert_eq!(sample_budget(100 * 1024 * 1024 - 1), 128 * 1024);
    assert_eq!(sample_budget(100 * 1024 * 1024), 64 * 1024);
    assert_eq!(sample_budget(usize::MAX), 64 * 1024);
}

#[test]
fn parallel_scan_of_a_source_with_several_chunks() {
    let mut data = Vec::new();
    let mut expected = 0usize;
    while data.len() < 3 * 1024 * 1024 + 17 {
        data.extend_from_slice(b"some,row,of,text\n");
        expected += 1;
    }
    data.extend_from_slice(b"tail");
    let parallel = RowIndex::build_parallel(&data, false, 1000).unwrap();
    let serial = RowIndex::build_with_progress(&data, false, 1000, None).unwrap();
    assert_eq!(parallel.total_rows(), expected + 1);
    assert!(same_index(&parallel, &serial));
}
