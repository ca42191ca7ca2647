//! An in-memory key-value store that speaks the RESP wire protocol.

pub mod commands;
pub mod config;
pub mod connection;
pub mod decimal;
pub mod protocol;
pub mod snapshot;
pub mod storage;
pub mod storage_laws;
pub mod text;
