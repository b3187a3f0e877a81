use standard_query::services::standard_parser::{contains_code, extract_code, normalize};

#[test]
fn test_normalize() {
    assert_eq!(normalize("GB/T 1234.1-2020"), "gbt1234.1-2020");
    assert_eq!(normalize("GY/T 222—2007"), "gyt222-2007");
}

#[test]
fn test_contains_code() {
    assert!(contains_code("GB 1234-2020"));
    assert!(contains_code("GY/T 222-2007"));
    assert!(!contains_code("纯中文标准名称"));
}

#[test]
fn test_extract_code() {
    assert_eq!(extract_code("GB/T 1234.1-2020 某某标准"), "GB/T 1234.1-2020");
    assert_eq!(extract_code("GB/T 1234.1"), "GB/T 1234.1");
}

#[test]
fn extract_code_twice_is_once() {
    for input in ["GB/T 1234.1-2020 某某标准", "  GY/T222 -2007 广播", "GB 1234－2020", "纯中文", "", "gd/j 5-2008"] {
        let once = extract_code(input);
        assert_eq!(extract_code(&once), once);
    }
    assert_eq!(extract_code("GB 1234 －2020"), "GB 1234-2020");
}

#[test]
fn extract_code_without_code_trims() {
    assert_eq!(extract_code("  纯中文标准名称 \n"), "纯中文标准名称");
    assert!(!contains_code("123 数字"));
}

#[test]
fn normal_form_has_no_separators() {
    let n = normalize(" GB／T 1234 / 1：2020 ");
    assert!(!n.contains(' ') && !n.contains('/') && !n.contains('：'));
    assert_eq!(normalize("GY/T 222—2007"), normalize("GYT222-2007"));
}
