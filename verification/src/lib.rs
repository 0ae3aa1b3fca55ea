//! Lossless concrete syntax trees and the formats that parse into them.

pub mod cst;
pub mod text;
pub mod report;
pub mod json;
pub mod yaml;
pub mod format;
pub mod semantic;
pub mod diff;
pub mod cli;
pub mod conformance;
pub mod window;
pub mod golden;
pub mod roundtrip;
pub mod konflux;
pub mod corpus;
pub mod fuzz_hours;
pub mod tree_report;
pub mod spike;
pub mod alloc_profile;
pub mod differential;
pub mod k1;
pub mod xtask;
pub mod survey;
pub mod ranking;
pub mod coverage;
