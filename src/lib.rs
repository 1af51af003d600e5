//! An embedded key-value store in the Bitcask design: every write is appended
//! to a log of data files, and an in-memory index maps each key to the
//! position of its latest record.

use vstd::prelude::*;

pub mod error;
pub mod log_record;
pub mod index;
pub mod io;
pub mod data_file;
pub mod db;
pub mod laws;

pub use error::{Error, Result};
pub use db::{Config, Engine};
pub use data_file::DataFile;
pub use index::{BTree, Indexer};
pub use io::{IOManager, MemIO};
pub use log_record::{decode, LogRecord, LogRecordPos, LogRecordStatus};

verus! {

} // verus!
