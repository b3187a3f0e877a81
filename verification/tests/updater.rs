use std::cmp::Ordering;
use standard_query::updater::{check, compare_versions, CheckFailure, VersionReply};

fn reply(version: Option<&str>, url: Option<&str>, notes: Option<&str>) -> Result<VersionReply, CheckFailure> {
    Ok(VersionReply {
        version: version.map(|s| s.to_string()),
        url: url.map(|s| s.to_string()),
        notes: notes.map(|s| s.to_string()),
    })
}

#[test]
fn versions_compare_numerically() {
    assert_eq!(compare_versions("0.5.1", "0.5.0"), Ordering::Greater);
    assert_eq!(compare_versions("0.5.0", "0.5.1"), Ordering::Less);
    assert_eq!(compare_versions("0.10.0", "0.9.9"), Ordering::Greater);
    assert_eq!(compare_versions("1.0", "1.0.0"), Ordering::Equal);
    assert_eq!(compare_versions("1.x.2", "1.2"), Ordering::Equal);
    assert_eq!(compare_versions("", "0"), Ordering::Equal);
}

#[test]
fn versions_compare_laws_on_values() {
    for (a, b) in [("0.5.0", "0.4.9"), ("2", "10"), ("1.2.3", "1.2.3")] {
        assert_eq!(compare_versions(a, a), Ordering::Equal);
        assert_eq!(compare_versions(a, b), compare_versions(b, a).reverse());
    }
}

#[test]
fn update_offered_for_newer_version() {
    let info = check(reply(Some("0.6.0"), Some("https://x/dl"), Some("修复")), "0.5.0");
    assert!(info.has_update);
    assert_eq!(info.version, "0.6.0");
    assert_eq!(info.url, "https://x/dl");
    assert_eq!(info.notes, "修复");
    assert_eq!(info.message, "发现新版本 v0.6.0（修复）");
}

#[test]
fn update_not_offered() {
    let same = check(reply(Some("0.5.0"), Some("u"), None), "0.5.0");
    assert!(!same.has_update);
    assert_eq!(same.message, "当前已是最新版本（v0.5.0）");
    let no_url = check(reply(Some("0.6.0"), None, Some("n")), "0.5.0");
    assert!(!no_url.has_update);
    assert_eq!(no_url.message, "发现新版本 v0.6.0，但下载地址无效");
    let no_version = check(reply(None, Some("u"), None), "0.5.0");
    assert_eq!(no_version.message, "版本信息无效");
    assert_eq!(no_version.url, "u");
}

#[test]
fn update_check_failures() {
    let req = check(Err(CheckFailure::Request("超时".into())), "0.5.0");
    assert!(!req.has_update);
    assert_eq!(req.message, "检查更新失败：超时");
    assert_eq!(req.version, "");
    let dec = check(Err(CheckFailure::Decode("坏".into())), "0.5.0");
    assert_eq!(dec.message, "解析版本信息失败：坏");
}
