//! Entries read from the appendix files.
use vstd::prelude::*;

verus! {

/// A standard found in a file: its code, its name, the page or row it stands
/// on, and the sheet (or part of the document) it was read from.
#[derive(Debug, Clone, PartialEq, Eq)]
pub struct StandardEntry {
    pub code: String,
    pub name: String,
    pub page: Option<u32>,
    pub sheet: String,
}

/// An entry of a loaded file, with the file it came from, for browsing.
#[derive(Debug, Clone, PartialEq, Eq)]
pub struct BrowseEntry {
    pub code: String,
    pub name: String,
    pub page: Option<u32>,
    pub sheet: String,
    pub source_name: String,
    pub source_path: String,
    pub source_type: String,
}

/// A loaded file as the user sees it: its name and how many entries it holds.
#[derive(Debug, Clone, PartialEq, Eq)]
pub struct FileInfo {
    pub name: String,
    pub count: usize,
}

impl StandardEntry {
    pub fn duplicate(&self) -> (r: Self)
        ensures
            r == *self,
    {
        StandardEntry {
            code: self.code.clone(),
            name: self.name.clone(),
            page: self.page,
            sheet: self.sheet.clone(),
        }
    }
}

} // verus!
