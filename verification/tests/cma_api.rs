use standard_query::services::standard_parser::normalize;
use standard_query::models::QueryStatus;
use standard_query::services::cma_api::{
    code_result, list_url, more_notice, query, query_by_name, read_reply, retry_code, row_lines,
    slash_variant, CmaReply, CmaRow,
};

fn row(code: &str, method: &str, remark: Option<&str>) -> CmaRow {
    CmaRow {
        standard_code: Some(code.to_string()),
        standard_method: Some(method.to_string()),
        remark: remark.map(|r| r.to_string()),
    }
}

#[test]
fn cma_list_url() {
    assert_eq!(
        list_url("standardCode", "GY/T 222-2006", "https://cma.caqit.org.cn/"),
        "https://cma.caqit.org.cn/cma-admin/system/standardData/list?pageNum=1&pageSize=20&standardCode=GY%2FT222-2006"
    );
    assert_eq!(
        list_url("standardMethod", "电视 接收", "http://h"),
        "http://h/cma-admin/system/standardData/list?pageNum=1&pageSize=20&standardMethod=%E7%94%B5%E8%A7%86%E6%8E%A5%E6%94%B6"
    );
}

#[test]
fn cma_read_reply() {
    let bad = read_reply(CmaReply { code: Some(500), rows: None, total: None });
    assert_eq!(bad, Err("接口返回异常".to_string()));
    let missing = read_reply(CmaReply { code: None, rows: Some(vec![]), total: Some(3) });
    assert_eq!(missing, Err("接口返回异常".to_string()));
    let empty = read_reply(CmaReply { code: Some(200), rows: None, total: None });
    assert_eq!(empty, Ok((vec![], 0)));
    let two = read_reply(CmaReply {
        code: Some(200),
        rows: Some(vec![row("A 1", "a", None), row("B 2", "b", None)]),
        total: None,
    });
    assert_eq!(two.as_ref().map(|r| r.1), Ok(2));
    let announced = read_reply(CmaReply { code: Some(200), rows: Some(vec![row("A 1", "a", None)]), total: Some(40) });
    assert_eq!(announced.map(|r| r.1), Ok(40));
}

#[test]
fn cma_more_notice() {
    assert_eq!(
        more_notice(25, 20),
        "\n共 25 条结果，当前仅显示第 1 页的 20 条，更多结果请前往 CMA 能力项目库网站查看"
    );
    assert_eq!(more_notice(20, 20), "");
    assert_eq!(more_notice(3, 5), "");
}

#[test]
fn cma_slash_variant() {
    assert_eq!(slash_variant("GYT222"), Some("GY/T222".to_string()));
    assert_eq!(slash_variant("gdj1-2000"), Some("gd/j1-2000".to_string()));
    assert_eq!(slash_variant("GB1234"), None);
    assert_eq!(slash_variant("AB"), None);
    assert_eq!(slash_variant("电视ABC"), None);
}

#[test]
fn cma_row_lines() {
    let rows = vec![row("GB 1", "甲", None), CmaRow { standard_code: None, standard_method: Some("乙".into()), remark: None }];
    assert_eq!(row_lines(&rows), vec!["GB 1 甲".to_string(), " 乙".to_string()]);
}

#[test]
fn cma_query_by_name() {
    let err = query_by_name(Err("请求失败：超时".to_string()));
    assert_eq!(err.status, QueryStatus::Error);
    assert_eq!(err.message, "请求失败：超时");
    let none = query_by_name(Ok((vec![], 0)));
    assert_eq!(none.status, QueryStatus::Nomatch);
    assert_eq!(none.message, "无匹配");
    let some = query_by_name(Ok((vec![row("GB 1-2000", "电视", None), row("GB 2-2001", "广播", None)], 30)));
    assert_eq!(some.status, QueryStatus::Partial);
    assert_eq!(
        some.message,
        "按名称找到 30 条相关标准。\n库中标准为：GB 1-2000 电视\nGB 2-2001 广播\n共 30 条结果，当前仅显示第 1 页的 2 条，更多结果请前往 CMA 能力项目库网站查看"
    );
}

#[test]
fn cma_exact_match_with_remark() {
    let rows = vec![row("GY/T 222-2006", "有线电视", Some("限前处理")), row("GY/T 222-2020", "新版", Some(""))];
    let r = code_result("GYT222-2006", &rows, 2);
    assert_eq!(r.status, QueryStatus::Exact);
    assert_eq!(r.message, "完全匹配：GY/T 222-2006 有线电视\n备注：限前处理");
    let r2 = code_result("GY/T 222-2020", &rows, 2);
    assert_eq!(r2.message, "完全匹配：GY/T 222-2020 新版");
}

#[test]
fn cma_partial_match_lists_rows() {
    let rows = vec![row("GY/T 222-2006", "有线电视", None)];
    let r = code_result("GY/T 222", &rows, 1);
    assert_eq!(r.status, QueryStatus::Partial);
    assert_eq!(r.message, "未完全匹配。\n库中标准为：GY/T 222-2006 有线电视");
}

#[test]
fn cma_query_retries_with_slash() {
    let first = Ok((vec![], 0));
    assert_eq!(retry_code("GYT 222", &first), Some("GY/T222".to_string()));
    assert_eq!(retry_code("GB 222", &first), None);
    let found: Result<(Vec<CmaRow>, u64), String> = Ok((vec![row("GB 1", "x", None)], 1));
    assert_eq!(retry_code("GYT 222", &found), None);
    let r = query("GYT 222", first.clone(), Some(Ok((vec![row("GY/T 222", "有线", None)], 1))));
    assert_eq!(r.status, QueryStatus::Exact);
    assert_eq!(r.message, "完全匹配：GY/T 222 有线");
    let failed_retry = query("GYT 222", first, Some(Err("x".to_string())));
    assert_eq!(failed_retry.status, QueryStatus::Nomatch);
    let err = query("GYT 222", Err("请求失败：e".to_string()), None);
    assert_eq!(err.status, QueryStatus::Error);
    assert_eq!(err.message, "请求失败：e");
}

#[test]
fn cma_slash_variant_names_the_same_standard() {
    for code in ["GYT222", "GDJ1-2008", "abc 9"] {
        let v = slash_variant(code).unwrap();
        assert_eq!(normalize(&v), normalize(code));
    }
}
