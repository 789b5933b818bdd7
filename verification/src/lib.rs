pub mod text;
pub mod timestamp;
pub mod ticket;
pub mod parser;
pub mod config;
pub mod config_file;
pub mod remote;
pub mod store;
pub mod metadata;
pub mod orchestrator;
pub mod commands;
pub mod roundtrip;
