//! Persistence layer of an embedded vector store.

pub mod backup;
pub mod check;
pub mod chunk;
pub mod cleanup;
pub mod commit;
pub mod compact;
pub mod crc;
pub mod current;
pub mod durable;
pub mod error;
pub mod hidx;
pub mod hook;
pub mod layout;
pub mod load;
pub mod log;
pub mod logged;
pub mod manifest;
pub mod manifest_io;
pub mod open;
pub mod order;
pub mod record;
pub mod recover;
pub mod remap;
pub mod replay;
pub mod restored;
pub mod segment;
pub mod session;
pub mod snapshot;
pub mod source;
pub mod state;
pub mod storage;
pub mod store;
pub mod tables;
pub mod text;
pub mod trash;
pub mod wal;
pub mod wal_writer;
