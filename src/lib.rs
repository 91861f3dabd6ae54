//! Keeps (or, in inverse mode, drops) the records of a gzip-compressed FASTQ file whose
//! identifiers appear in a list, one identifier per line.

pub mod cli;
pub mod filter;
pub mod idset;
pub mod laws;
pub mod record;

pub use filter::{FilterError, decide, filter_fq, filter_records, is_gz_path, process_read};
pub use idset::{IdSet, get_list};
pub use record::Record;
