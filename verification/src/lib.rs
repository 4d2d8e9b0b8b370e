//! A Redis-compatible key-value database.

pub mod benchmark;
pub mod clock;
pub mod cluster;
pub mod cmd;
pub mod codec;
pub mod config;
pub mod encoding;
pub mod error;
pub mod glob;
pub mod http_server;
pub mod lua;
pub mod order;
pub mod protocol;
pub mod pubsub;
pub mod replication;
pub mod score;
pub mod server;
pub mod storage;
pub mod table;
pub mod table_laws;
pub mod text;
pub mod types;

pub use config::{Config, ConfigManager};
pub use error::{KvdbError, KvdbResult};
pub use storage::StorageEngine;
pub use types::DataType;
