//! A synchronous database: inserts go in, systems derive, queries come out.
//!
//! Where the engine plans waves and commits runs concurrently, the database runs
//! its systems one after the other until nothing is left to run.

pub mod cleanup;
pub mod cleanup_laws;
pub mod commands;
pub mod config;
pub mod db;
pub mod filter;
pub mod laws;
pub mod odometer;
pub mod order;
pub mod rows;
pub mod run;
pub mod table_laws;
pub mod tables;
