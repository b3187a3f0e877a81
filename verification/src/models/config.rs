//! The addresses of the two online sources.
use vstd::prelude::*;

verus! {

/// The base addresses of the CMA capability library and of the national
/// standards platform.
#[derive(Debug, Clone, PartialEq, Eq)]
pub struct AppConfig {
    pub cma_url: String,
    pub samr_url: String,
}

impl Default for AppConfig {
    fn default() -> (r: Self)
        ensures
            r.cma_url@ == "https://cma.caqit.org.cn"@,
            r.samr_url@ == "https://std.samr.gov.cn"@,
    {
        AppConfig {
            cma_url: String::from_str("https://cma.caqit.org.cn"),
            samr_url: String::from_str("https://std.samr.gov.cn"),
        }
    }
}

} // verus!
