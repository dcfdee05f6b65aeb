//! Plans and checks the import of Binance Vision kline CSV files into DuckDB databases.

pub mod args;
pub mod course;
pub mod discover;
pub mod files;
pub mod import;
pub mod jobs;
pub mod names;
pub mod paths;
pub mod pool;
pub mod progress;
pub mod records;
pub mod row;
pub mod setup;
pub mod sort;
pub mod sql;
pub mod stats;
pub mod steps;
pub mod text;
