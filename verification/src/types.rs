//! Shared data types: analysis modes, column schemas, hardware and search results.
use vstd::prelude::*;
use std::collections::HashMap;

verus! {

/// How deep an analysis goes.
#[derive(Debug, Clone, Copy, PartialEq, Eq, Structural)]
pub enum AnalysisLevel {
    /// Row count, min/max/sum/mean (no histograms, no categories, no correlations)
    Basic,
    /// Basic + categories + histograms (no correlations)
    Discovery,
    /// Discovery + correlations
    Full,
}

/// Storage profile that sets the degree of parallelism.
#[derive(Debug, Clone, Copy, PartialEq, Eq, Structural)]
pub enum HardwareMode {
    /// Detect HDD/SSD automatically
    Auto,
    /// Force HDD safety mode (2 threads)
    HDD,
    /// Force SSD mode (standard parallelism)
    SSD,
}

impl Default for HardwareMode {
    fn default() -> (r: Self)
        ensures
            r == HardwareMode::Auto,
    {
        HardwareMode::Auto
    }
}

/// Vocabulary used when labels are shown.
#[derive(Debug, Clone, Copy, PartialEq, Eq, Structural)]
pub enum BusinessTemplate {
    General,
    Finance,
    Network,
    Cybersecurity,
    Sales,
}

impl Default for BusinessTemplate {
    fn default() -> (r: Self)
        ensures
            r == BusinessTemplate::General,
    {
        BusinessTemplate::General
    }
}

/// Which IP versions an IP scan looks for.
#[derive(Debug, Clone, Copy, PartialEq, Eq, Structural)]
pub enum IpScanMode {
    V4,
    V6,
    Both,
}

impl Default for IpScanMode {
    fn default() -> (r: Self)
        ensures
            r == IpScanMode::Both,
    {
        IpScanMode::Both
    }
}

/// Semantic type of a column.
#[derive(Debug, Clone, Copy, PartialEq, Eq, Structural)]
pub enum DataType {
    Numeric,
    Integer,
    Currency,
    Date,
    Category,
    Percentage,
    Boolean,
    IP,
    MAC,
    ID,
    Email,
    URL,
    UUID,
    PhoneNumber,
    JSON,
}

/// Name and type of a column, with optional display hints.
#[derive(Debug, Clone)]
pub struct ColumnSchema {
    pub name: String,
    pub data_type: DataType,
    pub format: Option<String>,
    pub currency_symbol: Option<String>,
}

impl ColumnSchema {
    /// A column with this name and type and no display hints.
    pub fn new(name: &str, data_type: DataType) -> (r: Self)
        ensures
            r.name@ == name@,
            r.data_type == data_type,
            r.format is None,
            r.currency_symbol is None,
    {
        ColumnSchema { name: name.to_owned(), data_type, format: None, currency_symbol: None }
    }
}

/// Column schemas by column name.
#[derive(Debug)]
pub struct CsvMeta {
    pub columns: HashMap<String, ColumnSchema>,
}

/// A GPU as the hardware report describes it.
#[derive(Debug, Clone)]
pub struct HardwareGpu {
    pub model: String,
    pub vendor: String,
    /// Intel EU count or similar
    pub cores: Option<u32>,
    pub memory_mb: Option<u64>,
    pub frequency_mhz: Option<u32>,
    /// "Integrated", "Discrete", "Unknown"
    pub device_type: String,
}

/// A row found by a search.
#[derive(Debug, Clone)]
pub struct SearchResult {
    pub file_name: String,
    pub row_index: usize,
    pub content: String,
}

/// How often something was seen in one file.
#[derive(Debug, Clone)]
pub struct FileHit {
    pub path: String,
    pub count: usize,
}

/// How often an IP address was seen, with where and what it is.
#[derive(Debug, Clone)]
pub struct IpFrequency {
    pub ip: String,
    pub count: usize,
    pub country_code: Option<String>,
    pub country_name: Option<String>,
    pub is_noise: bool,
    pub top_files: Vec<FileHit>,
}

} // verus!
