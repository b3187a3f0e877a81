use standard_query::models::ValidityResult;
use standard_query::services::samr_status::{
    build_exact_result, code_validity, error_result, get_base_code, name_validity, parse_cards,
    query, query_by_name, search_url, total_pages, ParsedCard,
};

const PAGE: &str = "<html><script>var totalPages:3;</script>\
    <div class=\"panel panel-default post\"><a href=\"/a\"><span class=\"en-code\">GB/T 1234-2012</span>\
    电视<sacinfo>广播</sacinfo>&nbsp;接收</a>\
    <span class=\"s-status label label-danger\">废止</span></div>\
    <div class=\"panel panel-default post\"><a href=\"/b\"><span class=\"en-code\"> GB/T 1234-2020 </span>\
    电视广播接收设备</a><span class=\"s-status label label-success\"> 现行 </span></div>";

fn texts(v: &ValidityResult) -> Vec<(String, String)> {
    v.lines.iter().map(|l| (l.text.clone(), l.color.clone())).collect()
}

fn card(code: &str, name: &str, status: &str) -> ParsedCard {
    ParsedCard { code: code.to_string(), name: name.to_string(), status: status.to_string() }
}

#[test]
fn samr_parse_cards_reads_code_name_status() {
    let cards = parse_cards(PAGE);
    assert_eq!(cards.len(), 2);
    assert_eq!(cards[0], card("GB/T 1234-2012", "电视广播 接收", "废止"));
    assert_eq!(cards[1], card("GB/T 1234-2020", "电视广播接收设备", "现行"));
}

#[test]
fn samr_card_without_status_is_unknown() {
    let html = "x<div class=\"panel panel-default post\"><span class=\"en-code\">GB 1-2000</span></div>";
    let cards = parse_cards(html);
    assert_eq!(cards, vec![card("GB 1-2000", "", "未知")]);
}

#[test]
fn samr_total_pages() {
    assert_eq!(total_pages(PAGE), 3);
    assert_eq!(total_pages("no pages here"), 1);
    assert_eq!(total_pages("totalPages:99999999999"), 1);
}

#[test]
fn samr_search_url_encodes_query_without_spaces() {
    assert_eq!(
        search_url("GB/T 1234", "https://std.samr.gov.cn//"),
        "https://std.samr.gov.cn/search/stdPage?q=GB%2FT1234&tid="
    );
    assert_eq!(
        search_url("数字 电视", "http://h"),
        "http://h/search/stdPage?q=%E6%95%B0%E5%AD%97%E7%94%B5%E8%A7%86&tid="
    );
}

#[test]
fn samr_base_code() {
    assert_eq!(get_base_code("gbt1234-2012"), "gbt1234");
    assert_eq!(get_base_code("gbt1234.1"), "gbt1234.1");
    assert_eq!(get_base_code("gbt1234-12"), "gbt1234-12");
    assert_eq!(get_base_code("gbt1234-20a2"), "gbt1234-20a2");
}

#[test]
fn samr_exact_match_of_withdrawn_standard_names_replacement() {
    let v = query("GB/T 1234-2012", PAGE);
    assert!(v.found);
    assert_eq!(
        texts(&v),
        vec![
            ("完全匹配，标准为：GB/T 1234-2012 电视广播 接收".to_string(), "green".to_string()),
            ("状态：废止".to_string(), "red".to_string()),
            ("被以下现行标准替代：GB/T 1234-2020 电视广播接收设备".to_string(), "green".to_string()),
        ]
    );
}

#[test]
fn samr_exact_match_in_force() {
    let v = query("gbt1234-2020", PAGE);
    assert!(v.found);
    assert_eq!(
        texts(&v),
        vec![
            ("完全匹配，标准为：GB/T 1234-2020 电视广播接收设备".to_string(), "green".to_string()),
            ("状态：现行".to_string(), "green".to_string()),
        ]
    );
}

#[test]
fn samr_withdrawn_without_replacement() {
    let cards = vec![card("GB 9-1990", "", "作废"), card("GB 8-2000", "x", "现行")];
    let v = build_exact_result(0, &cards);
    assert_eq!(
        texts(&v),
        vec![
            ("完全匹配，标准为：GB 9-1990".to_string(), "green".to_string()),
            ("状态：作废".to_string(), "red".to_string()),
            ("无替代标准".to_string(), "red".to_string()),
        ]
    );
}

#[test]
fn samr_code_without_year_lists_versions() {
    let v = query("GB/T 1234", PAGE);
    assert!(v.found);
    assert_eq!(
        texts(&v),
        vec![
            ("未完全匹配，找到 2 个相关标准：".to_string(), "yellow".to_string()),
            ("· GB/T 1234-2012 电视广播 接收（废止）".to_string(), "red".to_string()),
            ("· GB/T 1234-2020 电视广播接收设备（现行）".to_string(), "green".to_string()),
            (
                "共 3 页结果，当前仅显示第 1 页，更多内容请前往全国标准信息公共服务平台查看".to_string(),
                "gray".to_string()
            ),
        ]
    );
}

#[test]
fn samr_no_match() {
    let v = query("GB 99", PAGE);
    assert!(!v.found);
    assert_eq!(texts(&v), vec![("无匹配结果".to_string(), "red".to_string())]);
    let empty = code_validity(&Vec::new(), "GB 1", 1);
    assert!(!empty.found);
    assert_eq!(texts(&empty), vec![("无匹配结果".to_string(), "red".to_string())]);
}

#[test]
fn samr_lookup_by_name() {
    let v = query_by_name(PAGE);
    assert!(v.found);
    assert_eq!(v.lines.len(), 4);
    assert_eq!(v.lines[0].text, "按名称找到 2 个相关标准：");
    assert_eq!(v.lines[1].color, "red");
    assert_eq!(v.lines[2].color, "green");
    assert_eq!(v.lines[3].color, "gray");
}

#[test]
fn samr_lookup_by_name_shows_ten() {
    let cards: Vec<ParsedCard> = (0..12).map(|i| card(&format!("GB {}-2000", i), "n", "作废")).collect();
    let v = name_validity(&cards, 1);
    assert_eq!(v.lines.len(), 11);
    assert_eq!(v.lines[0].text, "按名称找到 12 个相关标准：");
    assert_eq!(v.lines[1].text, "· GB 0-2000 n（作废）");
    assert_eq!(v.lines[1].color, "red");
}

#[test]
fn samr_error_result() {
    let v = error_result("连接超时");
    assert!(!v.found);
    assert_eq!(texts(&v), vec![("有效性查询异常：连接超时".to_string(), "red".to_string())]);
}
