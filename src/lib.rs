//! An online judge: submission gate, judging engine, output judges and ranklists.
pub mod clock;
pub mod engine;
pub mod judge;
pub mod models;
pub mod ranking;
pub mod sandbox;
pub mod store;
pub mod text;
pub mod tokens;
pub mod worker;
