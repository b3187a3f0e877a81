//! Standard-number lookup: normalising and extracting Chinese standard codes,
//! matching them against loaded appendix files, and interpreting the answers of
//! the national standards platform and the CMA capability library.
pub mod text;
pub mod grammar;
pub mod services;
pub mod models;
pub mod naming;
pub mod parsers;
pub mod batch;
pub mod versions;
pub mod updater;
pub mod lookup;
pub mod patterns;
