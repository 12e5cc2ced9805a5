pub mod block;
pub mod ingest;
pub mod sweep;
pub mod text;

pub use block::BlockError;
pub use block::NetworkBlock;
pub use block::block_size;
pub use block::mask;
pub use block::try_merge;
pub use ingest::BlockSet;
pub use ingest::ClassifiedRecord;
pub use ingest::RunSummary;
pub use ingest::process_records;
pub use sweep::optimize_blocks_simple;
