pub mod command;
pub mod database;
pub mod handshake;
pub mod laws;
pub mod protocol;
pub mod reader;
pub mod store;
pub mod utils;
pub mod words;
pub mod writer;
