use standard_query::batch::extract_name_from_text;

#[test]
fn test_extract_name_from_text() {
    let text = "· GB/T 1234-2020 电视广播接收设备（现行）";
    assert_eq!(
        extract_name_from_text(text, "GB/T 1234-2020"),
        "电视广播接收设备"
    );
}

#[test]
fn batch_name_of_one_character_is_not_taken() {
    assert_eq!(extract_name_from_text("GB/T 1-2020 甲", "GB/T 1-2020"), "");
    assert_eq!(extract_name_from_text("GB/T 1-2020 甲乙", "GB/T 1-2020"), "甲乙");
    assert_eq!(extract_name_from_text("GB/T 1-2020 甲乙", "GB/T 1"), "");
}
