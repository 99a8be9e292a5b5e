pub mod codec;
pub mod error;
pub mod index;
pub mod kv;
pub mod log;

pub use codec::Command;
pub use codec::CommandView;
pub use codec::SetCommand;
pub use codec::decode_one;
pub use codec::encode;
pub use error::KvsError;
pub use index::IndexEntry;
pub use kv::DEAD_RECORDS_THRESHOLD;
pub use kv::KvStore;
pub use log::AppendLog;
pub use log::LogPointer;
pub use log::Segment;
pub use log::SegmentFile;
pub use log::scan_records;
