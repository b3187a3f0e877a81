use standard_query::models::{QueryStatus, StandardEntry};
use standard_query::services::local_matcher::LocalFileMatcher;

fn entry(code: &str, name: &str) -> StandardEntry {
    StandardEntry { code: code.to_string(), name: name.to_string(), page: Some(1), sheet: String::new() }
}

fn loaded() -> LocalFileMatcher {
    let mut m = LocalFileMatcher::new();
    let r = m.add_cnas(
        "/a/cnas.pdf",
        "cnas.pdf",
        Ok(vec![entry("GB/T 1234-2020", "甲"), entry("GY/T 222-2006", "乙"), entry("GY/T 222-2006", "乙二")]),
    );
    assert!(r.is_ok());
    m
}

#[test]
fn matcher_nothing_loaded() {
    let m = LocalFileMatcher::new();
    let r = m.query_cnas("GB 1");
    assert_eq!(r.status, QueryStatus::Error);
    assert_eq!(r.message, "未加载CNAS附表文件，请先选择文件");
    let r2 = m.query_cma("GB 1");
    assert_eq!(r2.message, "未加载CMA附表文件，请先选择文件");
    assert!(!m.is_in_local_files("GB 1"));
}

#[test]
fn matcher_exact_unique_and_multiple() {
    let m = loaded();
    let r = m.query_cnas("gb/t1234-2020");
    assert_eq!(r.status, QueryStatus::Exact);
    assert_eq!(r.message, "匹配唯一结果。\n对应附表标准：GB/T 1234-2020 甲");
    let r2 = m.query_cnas("GYT 222-2006");
    assert_eq!(r2.status, QueryStatus::Exact);
    assert_eq!(r2.message, "匹配到 2 条结果。\nGY/T 222-2006 乙\nGY/T 222-2006 乙二");
    assert!(m.is_in_local_files("GB/T 1234—2020"));
    assert!(!m.is_in_local_files("GB/T 1234"));
}

#[test]
fn matcher_partial_and_none() {
    let m = loaded();
    let r = m.query_cnas("GB/T 1234");
    assert_eq!(r.status, QueryStatus::Partial);
    assert_eq!(r.message, "未完全匹配。\n附表中相近标准：\nGB/T 1234-2020 甲");
    let n = m.query_cnas("GB 9999");
    assert_eq!(n.status, QueryStatus::Nomatch);
    assert_eq!(n.message, "无匹配");
    assert_eq!(m.query_cma("GB/T 1234-2020").status, QueryStatus::Error);
}

#[test]
fn matcher_add_remove_infos() {
    let mut m = loaded();
    let again = m.add_cnas("/a/cnas.pdf", "other", Ok(vec![]));
    let infos = again.unwrap();
    assert_eq!(infos.len(), 1);
    assert_eq!(infos[0].name, "cnas.pdf");
    assert_eq!(infos[0].count, 3);
    let bad = m.add_cma("/b/x.pdf", "x.pdf", Err("PDF 解析失败: 坏".to_string()));
    assert_eq!(bad.unwrap_err(), "PDF 解析失败: 坏");
    assert_eq!(m.cma_infos().len(), 0);
    let cma = m.add_cma("/b/y.xlsx", "y.xlsx", Ok(vec![entry("GB 5-2000", "戊")])).unwrap();
    assert_eq!(cma.len(), 1);
    assert_eq!(m.get_all_entries().len(), 4);
    assert_eq!(m.get_all_entries()[3].source_type, "cma");
    assert_eq!(m.get_all_entries()[0].source_path, "/a/cnas.pdf");
    assert_eq!(m.remove_cnas(5).len(), 1);
    assert_eq!(m.remove_cnas(0).len(), 0);
    assert_eq!(m.cnas_infos().len(), 0);
    assert_eq!(m.query_cnas("GB/T 1234-2020").status, QueryStatus::Error);
    assert!(m.is_in_local_files("gb5-2000"));
}

#[test]
fn matcher_lookup_by_name() {
    let mut m = LocalFileMatcher::new();
    assert_eq!(m.query_cnas_by_name("电视").status, QueryStatus::Error);
    let _ = m.add_cnas(
        "/a.pdf",
        "a.pdf",
        Ok(vec![entry("GB 1-2000", "数字 电视 接收"), entry("GB 2-2000", "广播"), entry("GB 3-2000", "Digital TV")]),
    );
    let r = m.query_cnas_by_name("数字电视");
    assert_eq!(r.status, QueryStatus::Partial);
    assert_eq!(r.message, "按名称找到 1 条相关标准：\nGB 1-2000 数字 电视 接收");
    let r2 = m.query_cnas_by_name("digital tv");
    assert_eq!(r2.message, "按名称找到 1 条相关标准：\nGB 3-2000 Digital TV");
    assert_eq!(m.query_cnas_by_name("卫星").status, QueryStatus::Nomatch);
    assert_eq!(m.query_cma_by_name("卫星").message, "未加载CMA附表文件，请先选择文件");
}

#[test]
fn matcher_lookup_by_name_lists_ten() {
    let mut m = LocalFileMatcher::new();
    let entries: Vec<StandardEntry> = (0..12).map(|i| entry(&format!("GB {}-2000", i), "电视")).collect();
    let _ = m.add_cma("/b.xlsx", "b.xlsx", Ok(entries));
    let r = m.query_cma_by_name("电视");
    assert!(r.message.starts_with("按名称找到 12 条相关标准：\nGB 0-2000 电视\n"));
    assert_eq!(r.message.lines().count(), 11);
}

#[test]
fn matcher_partial_groups_entries_by_code() {
    let mut m = LocalFileMatcher::new();
    let r = m.add_cma(
        "/a/cma.xlsx",
        "cma.xlsx",
        Ok(vec![entry("GB/T 1-2020", "甲"), entry("GB/T 12-2020", "乙"), entry("GB/T 1-2020", "丙")]),
    );
    assert!(r.is_ok());
    let q = m.query_cma("GB/T 1");
    assert_eq!(q.status, QueryStatus::Partial);
    assert_eq!(q.message, "未完全匹配。\n附表中相近标准：\nGB/T 1-2020 甲\nGB/T 1-2020 丙\nGB/T 12-2020 乙");
    assert_eq!(m.query_cnas("GB/T 1").status, QueryStatus::Error);
}

#[test]
fn matcher_entries_without_code_leave_index_empty() {
    let mut m = LocalFileMatcher::new();
    assert!(m.add_cnas("/a/x.pdf", "x.pdf", Ok(vec![entry(" / ", "无编号"), entry("", "空")])).is_ok());
    let r = m.query_cnas("GB 1");
    assert_eq!(r.status, QueryStatus::Error);
    assert_eq!(r.message, "未加载CNAS附表文件，请先选择文件");
    assert!(!m.is_in_local_files(" / "));
    assert_eq!(m.get_all_entries().len(), 2);
    assert_eq!(m.cnas_infos()[0].count, 2);
}
