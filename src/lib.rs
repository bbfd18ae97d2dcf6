//! A small in-memory key-value store: its wire codec, storage engine with lazy
//! expiration, snapshot codec and command dispatcher.

pub mod clock;
pub mod config;
pub mod decimal;
pub mod dispatch;
pub mod helper_func;
pub mod rdb_encoding;
pub mod resp;
pub mod snapshot;
pub mod storage;
pub mod values;
