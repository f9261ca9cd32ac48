//! `defmt` global logger saving to non-volatile storage
//!
//! Log messages are encoded into frames ([`LogProducer`], [`Logger`]) and put
//! in a log buffer in RAM. From there a [`LogManager`] moves them to a storage,
//! and reads them back from it.
//!
//! This is built on the assumption that some persistent storage implements the
//! traits of [`storage`], and that this logger has the full storage capacity.
//! In order to limit this, one can create a newtype wrapper that implements
//! them, giving access to a subset of the full capacity.
pub mod checksum;
pub mod cobs;
pub mod coding;
pub mod error;
pub mod frames;
pub mod helper;
pub mod laws;
pub mod layout;
pub mod logger;
pub mod manager;
pub mod packing;
pub mod producer;
pub mod pseudo_flash;
pub mod queue;
pub mod stack;
pub mod storage;
pub mod writer;

pub use error::Error;
pub use helper::{ReadMarker, StorageHelper};
pub use logger::Logger;
pub use manager::LogManager;
pub use producer::{handle, set_producer, LogProducer, MAX_ENCODING_SIZE};
pub use queue::{LogBuffer, LOG_BUFFER_SIZE};
