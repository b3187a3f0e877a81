use standard_query::models::{MatchResult, QueryStatus};

#[test]
fn test_match_result_helpers() {
    let exact = MatchResult::exact("完全匹配");
    assert_eq!(exact.status, QueryStatus::Exact);
    assert_eq!(exact.message, "完全匹配");

    let err = MatchResult::error("错误");
    assert_eq!(err.status, QueryStatus::Error);
}
