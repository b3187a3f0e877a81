//! Reading standard entries out of appendix files. Opening the files is left
//! to the caller; what is read from them is turned into entries here.
pub mod entries;
pub mod excel_parser;
pub mod docx_parser;
pub mod pdf_text;
