use standard_query::models::StandardEntry;
use standard_query::parsers::pdf_text::{floor_char_boundary, glyph_codes, pdf_entries, PageText};

fn entry(code: &str, name: &str, page: u32) -> StandardEntry {
    StandardEntry { code: code.to_string(), name: name.to_string(), page: Some(page), sheet: String::new() }
}

#[test]
fn pdf_floor_char_boundary() {
    let s = "aé中";
    assert_eq!(floor_char_boundary(s, 0), 0);
    assert_eq!(floor_char_boundary(s, 1), 1);
    assert_eq!(floor_char_boundary(s, 2), 1);
    assert_eq!(floor_char_boundary(s, 3), 3);
    assert_eq!(floor_char_boundary(s, 5), 3);
    assert_eq!(floor_char_boundary(s, 6), 6);
    assert_eq!(floor_char_boundary(s, 100), 6);
    assert!(s.is_char_boundary(floor_char_boundary(s, 4)));
}

#[test]
fn pdf_names_from_title_and_plain_text() {
    let pages = vec![PageText {
        page: 1,
        table: false,
        blocks: vec!["检测 GB/T 1234-2020《电视接收》 电话12345678 卫星广播 GB/T 5678—2019 其他".to_string()],
    }];
    assert_eq!(
        pdf_entries(&pages),
        vec![entry("GB/T 1234-2020", "电视接收", 1), entry("GB/T 5678-2019", "卫星广播", 1)]
    );
}

#[test]
fn pdf_table_column_takes_title_before_code() {
    let pages = vec![PageText { page: 4, table: true, blocks: vec!["《标准\n甲》\nGB 1111-2001".to_string()] }];
    assert_eq!(pdf_entries(&pages), vec![entry("GB 1111-2001", "标准甲", 4)]);
    let flat = vec![PageText { page: 4, table: false, blocks: vec!["《标准甲》、GB 1111-2001".to_string()] }];
    assert_eq!(pdf_entries(&flat), vec![entry("GB 1111-2001", "《标准甲》", 4)]);
}

#[test]
fn pdf_keeps_first_occurrence_of_a_code() {
    let pages = vec![
        PageText { page: 1, table: false, blocks: vec!["甲标准 GB 1-2000".to_string()] },
        PageText { page: 2, table: true, blocks: vec!["乙标准 gb 1－2000".to_string(), "丙 GB 2-2001".to_string()] },
    ];
    assert_eq!(pdf_entries(&pages), vec![entry("GB 1-2000", "甲标准", 1), entry("GB 2-2001", "丙", 2)]);
}

#[test]
fn pdf_title_beyond_150_bytes_is_not_used() {
    let filler = "中".repeat(60);
    let text = format!("GB 3-2003{}《远处》", filler);
    let pages = vec![PageText { page: 1, table: false, blocks: vec![text] }];
    assert_eq!(pdf_entries(&pages), vec![entry("GB 3-2003", "", 1)]);
}

#[test]
fn pdf_glyph_codes() {
    assert_eq!(glyph_codes(&vec![0x4e, 0x2d, 0x01], true), vec![0x4e2d]);
    assert_eq!(glyph_codes(&vec![0x41, 0x42], false), vec![0x41, 0x42]);
    assert_eq!(glyph_codes(&vec![], true), Vec::<u16>::new());
}

#[test]
fn pdf_noise_before_name_is_dropped() {
    let pages = vec![PageText {
        page: 2,
        table: false,
        blocks: vec!["证书ABC１２３４５６７ 有线电视 GB 7-2007".to_string()],
    }];
    assert_eq!(pdf_entries(&pages), vec![entry("GB 7-2007", "有线电视", 2)]);
}

#[test]
fn pdf_names_lose_leading_clause_numbers() {
    let pages = vec![PageText {
        page: 2,
        table: false,
        blocks: vec!["GB/T 1-2020\n4.1 电视接收 GB/T 2-2021\n7.5.9、卫星广播 GB 3-2003 3.5mm 接口 GB 4-2004".to_string()],
    }];
    assert_eq!(
        pdf_entries(&pages),
        vec![
            entry("GB/T 1-2020", "", 2),
            entry("GB/T 2-2021", "电视接收", 2),
            entry("GB 3-2003", "卫星广播", 2),
            entry("GB 4-2004", "3.5mm 接口", 2),
        ]
    );
}

#[test]
fn pdf_names_lose_stacked_clause_numbers() {
    let pages = vec![PageText {
        page: 3,
        table: false,
        blocks: vec!["GB/T 1-2020\n4.1 5.2 电视接收 GB/T 2-2021\n8.1 GB 3-2003".to_string()],
    }];
    assert_eq!(
        pdf_entries(&pages),
        vec![entry("GB/T 1-2020", "", 3), entry("GB/T 2-2021", "电视接收", 3), entry("GB 3-2003", "", 3)]
    );
}
