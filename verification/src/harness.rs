//! The golden and differential harness: the canonicalization filter,
//! golden case discovery and its `// frk-case:` directives, the golden
//! engine, the differential runner, and the conformance dashboard.

pub mod canon;
pub mod case;
pub mod runner;
pub mod golden;
pub mod diff;
pub mod dashboard;
