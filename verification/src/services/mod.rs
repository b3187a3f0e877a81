//! Lookups of a standard code: the code itself, the locally loaded appendix
//! files, the national standards platform and the CMA capability library.
pub mod standard_parser;
pub mod local_matcher;
pub mod url_text;
pub mod samr_status;
pub mod cma_api;
