use standard_query::lookup::{file_kind, pdf_page_url, plan_lookup, FileKind, LookupPlan};

#[test]
fn lookup_plan_by_code_or_name() {
    assert_eq!(plan_lookup("  GB/T 1234-2020 某标准 "), LookupPlan::ByCode("GB/T 1234-2020".to_string()));
    assert_eq!(plan_lookup(" 数字电视转播车 "), LookupPlan::ByName("数字电视转播车".to_string()));
    assert_eq!(plan_lookup("GYT222"), LookupPlan::ByCode("GYT 222".to_string()));
}

#[test]
fn lookup_file_kind() {
    assert_eq!(file_kind("XLSX"), Ok(FileKind::Excel));
    assert_eq!(file_kind("xls"), Ok(FileKind::Excel));
    assert_eq!(file_kind("Pdf"), Ok(FileKind::Pdf));
    assert_eq!(file_kind("docx"), Ok(FileKind::Word));
    assert_eq!(file_kind("DOC"), Ok(FileKind::Word));
    assert_eq!(file_kind("TXT"), Err("txt".to_string()));
    assert_eq!(file_kind(""), Err(String::new()));
}

#[test]
fn lookup_pdf_page_url() {
    assert_eq!(
        pdf_page_url("C:\\附表\\a b.pdf", 3),
        "file:///C:/%E9%99%84%E8%A1%A8/a%20b.pdf#page=3"
    );
    assert_eq!(pdf_page_url("/home/x.pdf", 12), "file:////home/x.pdf#page=12");
}
