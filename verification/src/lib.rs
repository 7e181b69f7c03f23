//! Health checks for a macOS system report: parsers for the text that the
//! system's tools print, and the rules that turn it into report lines and
//! warnings.
pub mod text;
pub mod number;
pub mod size;
pub mod fields;
pub mod report;
pub mod wifi;
pub mod ethernet;
pub mod bluetooth;
pub mod power;
pub mod storage;
pub mod usage;
