//! Per-key minimum, maximum, sum and count over a file of `key;value` lines.
//!
//! A line holds a key, a delimiter, a decimal number with at most one fractional digit, and
//! a terminator. Values are kept as whole numbers of tenths, so that sums are exact. Zero
//! bytes behind the last terminator are the fill of a buffer that was not read full, and no
//! line.
//!
//! The file is taken in by chunks. A chunk is read with a margin behind it and cut back to
//! whole lines (`chunk`); its lines are scanned and folded into a table (`lines`, `number`,
//! `table`); a worker merges the tables of a run of chunks (`worker`), and the workers'
//! tables are merged into one (`table`). What a table is to hold, and why the result does
//! not depend on how the file is cut or on the order of merging, is laid down in
//! `aggregate`, `chunk` and `scan`.
//!
//! The library reads no files. Whoever drives it reads the bytes that a worker asks for and
//! hands them over; `scan` does this for a file that is held in memory.

pub mod aggregate;
pub mod chunk;
pub mod error;
pub mod key;
pub mod lines;
pub mod number;
pub mod record;
pub mod scan;
pub mod search;
pub mod table;
pub mod worker;

pub use chunk::align_chunk;
pub use error::ScanError;
pub use key::{make_key, Key, KEY_CAPACITY};
pub use lines::{process_chunk, DELIMITER, FILL, TERMINATOR};
pub use number::{fixed_point_parse, format_tenths};
pub use record::{Record, Stats};
pub use scan::aggregate_bytes;
pub use table::{merge_all, AggregationTable};
pub use worker::{worker_offsets, ChunkPlan, Worker, CHUNK_EXCESS, CHUNK_SIZE, DISPATCH_LOOPS};
