use standard_query::models::StandardEntry;
use standard_query::parsers::excel_parser::{parse_sheets, parse_workbook, SheetRows};

fn cells(v: &[&str]) -> Vec<String> {
    v.iter().map(|s| s.to_string()).collect()
}

fn entry(code: &str, name: &str, page: u32, sheet: &str) -> StandardEntry {
    StandardEntry { code: code.to_string(), name: name.to_string(), page: Some(page), sheet: sheet.to_string() }
}

#[test]
fn excel_code_and_name_in_one_cell() {
    let sheets = vec![SheetRows {
        name: "能力表".to_string(),
        rows: vec![cells(&["序号", "标准"]), cells(&["1", "GB/T 1234-2020《电视接收设备》"])],
    }];
    assert_eq!(parse_sheets(&sheets), vec![entry("GB/T 1234-2020", "电视接收设备", 2, "能力表")]);
}

#[test]
fn excel_name_from_another_cell_of_the_row() {
    let sheets = vec![SheetRows {
        name: "S".to_string(),
        rows: vec![cells(&["GY/T 222-2006", "【是】有线电视系统", "12"])],
    }];
    assert_eq!(parse_sheets(&sheets), vec![entry("GY/T 222-2006", "有线电视系统", 1, "S")]);
}

#[test]
fn excel_one_entry_per_code_prefers_named_then_earlier_row() {
    let sheets = vec![
        SheetRows {
            name: "A".to_string(),
            rows: vec![cells(&["GB 1-2000"]), cells(&["GB 1-2000 甲标准"]), cells(&["GB 1-2000 乙标准"])],
        },
        SheetRows { name: "B".to_string(), rows: vec![cells(&["gb 1—2000 丙标准"])] },
    ];
    assert_eq!(parse_sheets(&sheets), vec![entry("gb 1-2000", "丙标准", 1, "B")]);
}

#[test]
fn excel_workbook_from_bytes() {
    let mut book = rust_xlsxwriter::Workbook::new();
    let sheet = book.add_worksheet();
    sheet.set_name("能力表").unwrap();
    sheet.write_string(0, 0, "标准编号").unwrap();
    sheet.write_string(1, 0, "GB/T 1234-2020").unwrap();
    sheet.write_string(1, 1, "电视接收设备").unwrap();
    let bytes = book.save_to_buffer().unwrap();
    let expected = vec![entry("GB/T 1234-2020", "电视接收设备", 2, "能力表")];
    assert_eq!(parse_workbook("xlsx", &bytes).unwrap(), expected);
    assert_eq!(parse_workbook("", &bytes).unwrap(), expected);
    assert!(parse_workbook("xls", &bytes).unwrap_err().starts_with("Excel 解析失败: Xls error: "));
    assert!(parse_workbook("xlsx", b"not a workbook").unwrap_err().starts_with("Excel 解析失败: Xlsx error: "));
    assert_eq!(parse_workbook("dat", b"not a workbook").unwrap_err(), "Excel 解析失败: Cannot detect file format");
}
