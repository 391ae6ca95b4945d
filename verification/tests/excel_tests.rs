use batch_file_renamer::excel::{
    choose_sheet, export_mapping, import_mapping, ledger_bytes, mapping_workbook, ExcelError,
};
use batch_file_renamer::ledger::{mark_failed, mark_success, Ledger};
use batch_file_renamer::scan::FileEntry;

fn grid(rows: &[&[&str]]) -> Vec<Vec<String>> {
    rows.iter()
        .map(|r| r.iter().map(|c| c.to_string()).collect())
        .collect()
}

fn sample_files() -> Vec<FileEntry> {
    vec![
        FileEntry {
            name: "sample_R1.fastq.gz".into(),
            size: 10,
        },
        FileEntry {
            name: "sample_R2.fastq.gz".into(),
            size: 10,
        },
    ]
}

#[test]
fn export_then_import_roundtrip() {
    let files = sample_files();
    let bytes = export_mapping(&files).unwrap();
    // An xlsx file is a zip archive.
    assert!(bytes.starts_with(b"PK"));
    // The list sheet as a reader sees it: the header row, then one row per file
    // with an empty new name.
    let sheet = grid(&[
        &["当前文件名称", "新文件名称"],
        &["sample_R1.fastq.gz", ""],
        &["sample_R2.fastq.gz", ""],
    ]);
    let rows = import_mapping(&sheet).unwrap();
    assert_eq!(rows.len(), 2);
    assert_eq!(rows[0].0, "sample_R1.fastq.gz");
    assert_eq!(rows[0].1, "");
}

#[test]
fn mapping_workbook_is_made_for_ordinary_names() {
    assert!(mapping_workbook(&sample_files()).is_ok());
    assert!(mapping_workbook(&[]).is_ok());
}

#[test]
fn over_long_name_is_refused_on_export() {
    let files = vec![FileEntry {
        name: "x".repeat(32768),
        size: 1,
    }];
    assert!(matches!(export_mapping(&files), Err(ExcelError::Write(_))));
    assert!(matches!(mapping_workbook(&files), Err(ExcelError::Write(_))));
    let files = vec![FileEntry {
        name: "x".repeat(32767),
        size: 1,
    }];
    assert!(export_mapping(&files).is_ok());
}

#[test]
fn import_finds_headers_anywhere() {
    let sheet = grid(&[
        &["批次说明"],
        &["", "新文件名称", "备注", "当前文件名称"],
        &["", "b.txt", "note", "a.txt"],
        &["", "", "only a note"],
        &["", "  ", "", " "],
        &["", "d.txt"],
        &["", "", "", "c.txt"],
    ]);
    let rows = import_mapping(&sheet).unwrap();
    assert_eq!(
        rows,
        vec![
            ("a.txt".to_string(), "b.txt".to_string()),
            ("".to_string(), "d.txt".to_string()),
            ("c.txt".to_string(), "".to_string()),
        ]
    );
}

#[test]
fn import_keeps_cells_untrimmed() {
    let sheet = grid(&[&["当前文件名称", "新文件名称"], &[" a.txt", "b.txt "]]);
    let rows = import_mapping(&sheet).unwrap();
    assert_eq!(rows, vec![(" a.txt".to_string(), "b.txt ".to_string())]);
}

#[test]
fn import_without_headers_fails() {
    let sheet = grid(&[&["当前文件名称", "新名称"], &["a.txt", "b.txt"]]);
    assert!(matches!(import_mapping(&sheet), Err(ExcelError::MissingHeaders)));
    assert!(matches!(import_mapping(&Vec::new()), Err(ExcelError::MissingHeaders)));
}

#[test]
fn headers_found_across_rows_use_the_later_row() {
    // The current-name header is on row 0 and the new-name header on row 1: the
    // data starts below row 1.
    let sheet = grid(&[
        &["当前文件名称"],
        &["", "新文件名称"],
        &["a.txt", "b.txt"],
    ]);
    let rows = import_mapping(&sheet).unwrap();
    assert_eq!(rows, vec![("a.txt".to_string(), "b.txt".to_string())]);
}

#[test]
fn sheet_choice() {
    let names = |v: &[&str]| v.iter().map(|s| s.to_string()).collect::<Vec<String>>();
    assert_eq!(choose_sheet(&names(&["使用说明", "文件列表"])).unwrap(), 1);
    assert_eq!(choose_sheet(&names(&["Sheet1", "Sheet2"])).unwrap(), 0);
    assert_eq!(choose_sheet(&names(&["文件列表", "文件列表"])).unwrap(), 0);
    match choose_sheet(&[]) {
        Err(ExcelError::Read(msg)) => assert_eq!(msg, "工作簿没有工作表"),
        other => panic!("unexpected: {other:?}"),
    }
}

#[test]
fn ledger_spreadsheet_is_written() {
    let mut ledger = Ledger::new(
        "/data",
        &[
            ("a".to_string(), "b".to_string()),
            ("c".to_string(), "d".to_string()),
        ],
    );
    mark_success(&mut ledger, &"a".to_string());
    mark_failed(&mut ledger, &"c".to_string(), "boom");
    let bytes = ledger_bytes(&ledger).unwrap();
    assert!(bytes.starts_with(b"PK"));
}

#[test]
fn ledger_spreadsheet_refuses_over_long_error() {
    let mut ledger = Ledger::new("/data", &[("a".to_string(), "b".to_string())]);
    mark_failed(&mut ledger, &"a".to_string(), &"e".repeat(40000));
    assert!(matches!(ledger_bytes(&ledger), Err(ExcelError::Write(_))));
}
