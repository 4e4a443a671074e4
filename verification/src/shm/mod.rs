//! Rings with one producer and one consumer, in one process and between two.

pub mod cursor;
pub mod ingest;
pub mod layout;
pub mod protocol;
pub mod runs;
pub mod segment;
pub mod spsc;

pub use ingest::{IngesterStats, ShmIngester};
pub use layout::{ShmHeader, READY_MAGIC};
pub use segment::{ShmRingReader, ShmRingWriter, WriterStats};
pub use spsc::{SpscReader, SpscRing, SpscWriter};
