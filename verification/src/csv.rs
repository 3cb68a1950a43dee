//! The engine: scanner, parser, index, cache and reader, and what is built
//! on them.

pub mod cache;
pub mod chunks;
pub mod detect;
pub mod display;
pub mod editor;
pub mod estimate;
pub mod export;
pub mod exporter;
pub mod index;
pub mod laws;
pub mod lines;
pub mod number;
pub mod order;
pub mod pattern;
pub mod persist;
pub mod reader;
pub mod record;
pub mod scan;
pub mod search;
pub mod signal;
pub mod sort;
pub mod text;
pub mod writer;

pub use cache::PageCache;
pub use detect::{detect_delimiter, detect_has_headers};
pub use editor::CsvEditor;
pub use estimate::RowEstimate;
pub use export::{ExportFormat, ExportStats};
pub use exporter::{ExportOptions, Exporter};
pub use index::RowIndex;
pub use persist::{IndexMetadata, SourceStat, Timestamp};
pub use reader::{CsvInfo, CsvReader};
pub use record::CsvRecord;
pub use pattern::SearchPattern;
pub use search::{highlight_matches, MatchInfo, SearchOptions, SearchResult, Searcher};
pub use sort::{DataType, SortKey, SortOptions, SortOrder, SortedRecord, Sorter};
pub use writer::{
    CellEdit, ChangeStats, CsvCreator, LineEnding, RowData, SaveStats, WriteOptions,
};
