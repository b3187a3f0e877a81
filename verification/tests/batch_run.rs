use standard_query::batch::{batch_inputs_from_entries, result_column_widths, result_sheet, BatchRun, WriteStep};
use standard_query::models::{BatchInput, BatchRow, MatchResult, StandardEntry, ValidityLine, ValidityResult};

fn entry(code: &str, name: &str) -> StandardEntry {
    StandardEntry { code: code.to_string(), name: name.to_string(), page: None, sheet: String::new() }
}

fn input(code: &str, name: &str) -> BatchInput {
    BatchInput { code: code.to_string(), name: name.to_string() }
}

#[test]
fn batch_inputs_sorted_and_deduplicated() {
    let entries = vec![entry("GY/T 2-2000", "乙"), entry("GB 9-1999", "甲"), entry("GY/T 2-2000", "乙二")];
    assert_eq!(
        batch_inputs_from_entries(&entries),
        vec![input("GB 9-1999", "甲"), input("GY/T 2-2000", "乙")]
    );
}

#[test]
fn batch_run_refuses_empty_input() {
    assert_eq!(BatchRun::start(vec![]).err(), Some("没有可查询的标准，请先选择批量文件".to_string()));
}

#[test]
fn batch_run_records_rows_in_order() {
    let mut run = BatchRun::start(vec![input(" GB/T 1234-2020 甲 ", "表中名"), input("GB 5-2000", "戊")]).unwrap();
    assert_eq!(run.total(), 2);
    assert_eq!(run.next_code(), Some("GB/T 1234-2020".to_string()));
    let validity = ValidityResult {
        found: true,
        lines: vec![
            ValidityLine { text: "完全匹配，标准为：GB/T 1234-2020 电视接收".into(), color: "green".into() },
            ValidityLine { text: "状态：现行".into(), color: "green".into() },
        ],
    };
    let cnas = MatchResult::nomatch("无匹配");
    let row = run.record(&validity, &cnas, &cnas, &cnas);
    assert_eq!(row.code, "GB/T 1234-2020");
    assert_eq!(row.validity, "完全匹配，标准为：GB/T 1234-2020 电视接收\n状态：现行");
    assert_eq!(row.name, "电视接收");
    assert_eq!(run.done(), 1);
    assert!(!run.is_finished());
    assert_eq!(run.next_code(), Some("GB 5-2000".to_string()));
    let empty = ValidityResult { found: false, lines: vec![] };
    let cma = MatchResult::exact("完全匹配：GB 5-2000 戊标准全称");
    let row2 = run.record(&empty, &cnas, &cnas, &cma);
    assert_eq!(row2.name, "戊标准全称");
    assert!(run.is_finished());
    assert_eq!(run.next_code(), None);
    assert_eq!(run.rows().len(), 2);
}

#[test]
fn batch_row_name_falls_back_to_batch_file() {
    let mut run = BatchRun::start(vec![input("GB 8-2008", "表格里的名称")]).unwrap();
    let none = MatchResult::nomatch("无匹配");
    let empty = ValidityResult { found: false, lines: vec![ValidityLine { text: "无匹配结果".into(), color: "red".into() }] };
    let row = run.record(&empty, &none, &none, &none);
    assert_eq!(row.name, "表格里的名称");
    assert_eq!(row.validity, "无匹配结果");
    assert_eq!(row.cnas, "无匹配");
}

#[test]
fn batch_run_pauses_when_the_sheet_cannot_be_written() {
    let run = BatchRun::start(vec![input("GB 5-2000", "戊")]).unwrap();
    assert!(matches!(run.after_write(true), WriteStep::Next));
    match run.after_write(false) {
        WriteStep::Pause { done, warning } => {
            assert_eq!(done, 0);
            assert_eq!(warning, "结果文件写入失败（可能正被 Excel 打开），请关闭该文件后点击「恢复」");
        }
        WriteStep::Next => panic!("expected a pause"),
    }
}

#[test]
fn batch_result_sheet_layout() {
    let row = BatchRow {
        code: "GB 5-2000".to_string(),
        name: "戊".to_string(),
        validity: "有效".to_string(),
        cnas: "无匹配".to_string(),
        cma_file: "匹配".to_string(),
        cma_api: "库".to_string(),
    };
    let sheet = result_sheet(&vec![row]);
    assert_eq!(
        sheet,
        vec![
            vec!["标准号", "标准名", "有效性(SAMR)", "CMA能力项目库", "CNAS附表", "CMA附表"]
                .into_iter()
                .map(String::from)
                .collect::<Vec<String>>(),
            vec!["GB 5-2000", "戊", "有效", "库", "无匹配", "匹配"].into_iter().map(String::from).collect(),
        ]
    );
    assert_eq!(result_sheet(&vec![]).len(), 1);
    assert_eq!(result_column_widths(), vec![18, 42, 46, 46, 42, 42]);
}

#[test]
fn batch_run_refused_when_the_sheet_cannot_be_created() {
    let run = BatchRun::start(vec![input("GB 5-2000", "戊")]).unwrap();
    assert_eq!(run.after_header(true), Ok(()));
    assert_eq!(run.after_header(false), Err("无法写入目标文件，请确认该 Excel 文件已关闭后重试".to_string()));
}
