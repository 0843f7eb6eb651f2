//! Price grid detection, price parsing and fuzzy catalogue matching for
//! e-commerce listings, with the decisions of each use case stated as
//! contracts.

pub mod autoscrape;
pub mod brands;
pub mod browse;
pub mod capture;
pub mod cli;
pub mod config;
pub mod cards;
pub mod delta;
pub mod detect;
pub mod dom;
pub mod export;
pub mod grid;
pub mod http;
pub mod import_rows;
pub mod imports;
pub mod instance;
pub mod linking;
pub mod matching;
pub mod matrix;
pub mod model;
pub mod names;
pub mod numbers;
pub mod persist;
pub mod ports;
pub mod prices;
pub mod ranking;
pub mod size;
pub mod text;
pub mod time;
pub mod unicode;

