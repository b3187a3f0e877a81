use standard_query::models::StandardEntry;
use standard_query::parsers::docx_parser::{docx_part_label, parse_docx, parse_document_xml};
use std::io::Write;

#[test]
fn test_parse_docx_xml_table() {
    let xml = r#"<?xml version="1.0" encoding="UTF-8" standalone="yes"?>
        <w:document xmlns:w="http://schemas.openxmlformats.org/wordprocessingml/2006/main">
            <w:body>
                <w:tbl>
                    <w:tr>
                        <w:tc><w:p><w:r><w:t>序号</w:t></w:r></w:p></w:tc>
                        <w:tc><w:p><w:r><w:t>标准编号</w:t></w:r></w:p></w:tc>
                        <w:tc><w:p><w:r><w:t>标准名称</w:t></w:r></w:p></w:tc>
                    </w:tr>
                    <w:tr>
                        <w:tc><w:p><w:r><w:t>1</w:t></w:r></w:p></w:tc>
                        <w:tc><w:p><w:r><w:t>GB/T 1234-2020</w:t></w:r></w:p></w:tc>
                        <w:tc><w:p><w:r><w:t>广播电视接收设备安全要求</w:t></w:r></w:p></w:tc>
                    </w:tr>
                </w:tbl>
            </w:body>
        </w:document>"#;

    let entries = parse_document_xml(xml, "正文");
    assert_eq!(entries.len(), 1);
    assert_eq!(entries[0].code, "GB/T 1234-2020");
    assert_eq!(entries[0].name, "广播电视接收设备安全要求");
    assert_eq!(entries[0].sheet, "表格 1");
}

#[test]
fn test_parse_docx_xml_paragraph() {
    let xml = r#"<?xml version="1.0" encoding="UTF-8" standalone="yes"?>
        <w:document xmlns:w="http://schemas.openxmlformats.org/wordprocessingml/2006/main">
            <w:body>
                <w:p>
                    <w:r><w:t>依据标准：GY/T 222-2007 《移动多媒体广播广播信道帧结构》 进行检测。</w:t></w:r>
                </w:p>
            </w:body>
        </w:document>"#;

    let entries = parse_document_xml(xml, "正文");
    assert_eq!(entries.len(), 1);
    assert_eq!(entries[0].code, "GY/T 222-2007");
    assert_eq!(entries[0].name, "移动多媒体广播广播信道帧结构");
    assert_eq!(entries[0].sheet, "正文");
}

#[test]
fn docx_row_and_paragraph_pages() {
    let xml = r#"<w:document xmlns:w="x"><w:body>
        <w:p><w:r><w:t>引言</w:t></w:r></w:p>
        <w:p><w:r><w:t>见 GB 1-2001 《第一》 及 GB 2-2002</w:t></w:r></w:p>
        <w:tbl><w:tr><w:tc><w:p><w:r><w:t>GY 5-2005</w:t></w:r></w:p></w:tc><w:tc><w:p><w:r><w:t>【注】某某设备</w:t></w:r></w:p></w:tc></w:tr></w:tbl>
        </w:body></w:document>"#;
    let entries = parse_document_xml(xml, "页眉");
    assert_eq!(entries.len(), 3);
    assert_eq!(entries[0].code, "GB 1-2001");
    assert_eq!(entries[0].name, "第一");
    assert_eq!(entries[0].page, Some(2));
    assert_eq!(entries[1].code, "GB 2-2002");
    assert_eq!(entries[1].name, "第一");
    assert_eq!(entries[2].code, "GY 5-2005");
    assert_eq!(entries[2].name, "某某设备");
    assert_eq!(entries[2].sheet, "表格 1");
    assert_eq!(entries[2].page, Some(1));
}

#[test]
fn docx_part_labels() {
    assert_eq!(docx_part_label("word/header1.xml"), Some("页眉".to_string()));
    assert_eq!(docx_part_label("word/footer2.xml"), Some("页脚".to_string()));
    assert_eq!(docx_part_label("word/footnotes.xml"), Some("脚注".to_string()));
    assert_eq!(docx_part_label("word/endnotes.xml"), Some("尾注".to_string()));
    assert_eq!(docx_part_label("word/document.xml"), None);
    assert_eq!(docx_part_label("word/header1.rels"), None);
}

fn docx_bytes(parts: &[(&str, &str)]) -> Vec<u8> {
    let mut w = zip::ZipWriter::new(std::io::Cursor::new(Vec::new()));
    let options = zip::write::SimpleFileOptions::default().compression_method(zip::CompressionMethod::Stored);
    for (name, text) in parts {
        w.start_file(*name, options).unwrap();
        w.write_all(text.as_bytes()).unwrap();
    }
    w.finish().unwrap().into_inner()
}

fn para(text: &str) -> String {
    format!("<w:document><w:body><w:p><w:r><w:t>{}</w:t></w:r></w:p></w:body></w:document>", text)
}

#[test]
fn docx_file_main_part_then_extra_parts() {
    let body = para("依据 GY/T 222-2007 《移动多媒体广播》");
    let header = para("GB 1-2000 《页眉标准》");
    let bytes = docx_bytes(&[
        ("word/header1.xml", header.as_str()),
        ("word/document.xml", body.as_str()),
        ("word/styles.xml", "<w:styles/>"),
    ]);
    let r = parse_docx(&bytes).unwrap();
    assert_eq!(
        r,
        vec![
            StandardEntry {
                code: "GY/T 222-2007".to_string(),
                name: "移动多媒体广播".to_string(),
                page: Some(1),
                sheet: "正文".to_string()
            },
            StandardEntry {
                code: "GB 1-2000".to_string(),
                name: "页眉标准".to_string(),
                page: Some(1),
                sheet: "页眉".to_string()
            },
        ]
    );
}

#[test]
fn docx_file_errors() {
    let r = parse_docx(b"not a zip archive");
    assert!(r.unwrap_err().starts_with("Word 解析失败: 打开 Word 文档失败（如为老版本二进制 .doc 格式，请在 Word 中另存为 .docx 格式后导入）："));
    let bytes = docx_bytes(&[("word/header1.xml", "<w:hdr/>")]);
    assert_eq!(parse_docx(&bytes).unwrap_err(), "Word 解析失败: 无效的 DOCX 文件：未找到 word/document.xml");
}
