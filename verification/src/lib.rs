pub mod adj;
pub mod bus;
pub mod config;
pub mod connections;
pub mod file;
pub mod file_manifest;
pub mod message;
pub mod search;
pub mod session;
pub mod text;
