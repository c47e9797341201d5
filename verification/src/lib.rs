//! Zen Engine: parsing and analytical core for large forensic datasets
//! (CSV, EVTX, PCAP), with verified byte-level scanners and parsers.

pub mod bytes;
pub mod text;

pub mod evtx;
pub mod pcap;
pub mod scan;
pub mod delta;
pub mod filter;
pub mod engine;
pub mod index;
pub mod types;
pub mod utils;
pub mod parsers;
pub mod history;
pub mod domain;
pub mod dma;
pub mod discovery;
pub mod dataset;
pub mod zones;
pub mod ingest;
pub mod blueprint;
pub mod report;
pub mod machine;
pub mod ranking;
