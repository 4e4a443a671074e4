//! A trading kernel: binary64 market data in fixed-capacity rings, a symbol
//! store with eviction to cold files, single-producer single-consumer rings,
//! and a price-time priority order book with paper trading.

pub mod affinity;
pub mod binary64;
pub mod candle;
pub mod cold;
pub mod feed;
pub mod ffi;
pub mod hw;
pub mod matching;
pub mod metrics;
pub mod ring_buffer;
pub mod settings;
pub mod shm;
pub mod shutdown;
pub mod signal;
pub mod simulator;
pub mod store;
pub mod strategy;
pub mod text;

pub use affinity::{available_cores, pin_to_core};
pub use binary64::Binary64;
pub use candle::Candle;
pub use cold::file::SCHEMA_VERSION as PARQUET_SCHEMA_VERSION;
pub use cold::SpillError;
pub use feed::Subscription;
pub use hw::HardwareProfile;
pub use shm::{IngesterStats, ShmIngester, ShmRingReader, ShmRingWriter};
pub use shm::{SpscReader, SpscRing, SpscWriter};
pub use signal::{Side, Signal};
pub use store::{AppendError, CandleStore, StoreSnapshot};
