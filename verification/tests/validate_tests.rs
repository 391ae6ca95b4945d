use batch_file_renamer::scan::FileEntry;
use batch_file_renamer::validate::{
    batch_to_run, build_preview, build_restore_preview, validate_filename, Preview, RowAction,
};

fn files(names: &[&str]) -> Vec<FileEntry> {
    names
        .iter()
        .map(|n| FileEntry {
            name: n.to_string(),
            size: 1,
        })
        .collect()
}

fn rows(pairs: &[(&str, &str)]) -> Vec<(String, String)> {
    pairs
        .iter()
        .map(|(a, b)| (a.to_string(), b.to_string()))
        .collect()
}

/// Whether the trimmed new name of each row names one of `on_disk`: the
/// directory of these tests holds exactly the listed files.
fn targets_on_disk(rows: &[(String, String)], on_disk: &[FileEntry]) -> Vec<bool> {
    rows.iter()
        .map(|(_, new)| on_disk.iter().any(|f| f.name == new.trim()))
        .collect()
}

fn preview(pairs: &[(&str, &str)], disk: &[&str]) -> Preview {
    let rows = rows(pairs);
    let disk = files(disk);
    let exists = targets_on_disk(&rows, &disk);
    build_preview(&rows, &disk, &exists)
}

#[test]
fn skips_empty_and_same() {
    let preview = preview(&[("a.txt", ""), ("a.txt", "a.txt")], &["a.txt"]);
    assert_eq!(preview.skip_count(), 2);
    assert_eq!(preview.rename_count(), 0);
}

#[test]
fn rejects_duplicate_new_names() {
    let preview = preview(&[("a.txt", "c.txt"), ("b.txt", "c.txt")], &["a.txt", "b.txt"]);
    assert!(preview.blocking_error.is_some());
}

#[test]
fn rejects_overwrite() {
    let preview = preview(&[("a.txt", "keep.txt")], &["a.txt", "keep.txt"]);
    assert_eq!(preview.reject_count(), 1);
    assert_eq!(preview.rename_count(), 0);
}

#[test]
fn allows_swap() {
    let preview = preview(&[("a.txt", "b.txt"), ("b.txt", "a.txt")], &["a.txt", "b.txt"]);
    assert!(preview.blocking_error.is_none());
    assert_eq!(preview.rename_count(), 2);
}

#[test]
fn rejects_illegal_chars() {
    assert!(validate_filename("a:b.txt").is_err());
    assert!(validate_filename("CON.txt").is_err());
    assert!(validate_filename("ok.fastq.gz").is_ok());
}

#[test]
fn filename_error_messages() {
    assert_eq!(validate_filename(""), Err("文件名为空".to_string()));
    assert_eq!(validate_filename("."), Err("文件名不能是 . 或 ..".to_string()));
    assert_eq!(validate_filename(".."), Err("文件名不能是 . 或 ..".to_string()));
    assert_eq!(
        validate_filename("dir/a.txt"),
        Err("新文件名称不能包含路径分隔符，只能是文件名".to_string())
    );
    assert_eq!(
        validate_filename("dir\\a.txt"),
        Err("新文件名称不能包含路径分隔符，只能是文件名".to_string())
    );
    assert_eq!(
        validate_filename("a<b.txt"),
        Err("文件名包含非法字符: '<'".to_string())
    );
    assert_eq!(
        validate_filename("a\u{1}b"),
        Err(format!("文件名包含非法字符: {:?}", '\u{1}'))
    );
    assert_eq!(
        validate_filename("a\"b"),
        Err(format!("文件名包含非法字符: {:?}", '"'))
    );
    assert_eq!(
        validate_filename("name "),
        Err("Windows 不允许文件名以空格或点结尾".to_string())
    );
    assert_eq!(
        validate_filename("name."),
        Err("Windows 不允许文件名以空格或点结尾".to_string())
    );
    assert_eq!(
        validate_filename(&"a".repeat(256)),
        Err("文件名过长（超过 255 字节/字符）".to_string())
    );
    assert_eq!(validate_filename(&"a".repeat(255)), Ok(()));
    assert_eq!(
        validate_filename("com1.tar.gz"),
        Err("Windows 保留设备名不可用作文件名: com1".to_string())
    );
    assert_eq!(
        validate_filename("Lpt9"),
        Err("Windows 保留设备名不可用作文件名: Lpt9".to_string())
    );
    assert_eq!(validate_filename("CONSOLE.txt"), Ok(()));
    assert_eq!(validate_filename(".CON"), Ok(()));
}

#[test]
fn filename_checks_come_in_order() {
    // A separator is reported before an illegal character.
    assert_eq!(
        validate_filename("a/b:c"),
        Err("新文件名称不能包含路径分隔符，只能是文件名".to_string())
    );
    // The first illegal character is the one reported.
    assert_eq!(
        validate_filename("a*b?c"),
        Err("文件名包含非法字符: '*'".to_string())
    );
    // Length is counted in bytes: 86 three-byte characters are 258 bytes.
    assert_eq!(
        validate_filename(&"名".repeat(86)),
        Err("文件名过长（超过 255 字节/字符）".to_string())
    );
    assert_eq!(validate_filename(&"名".repeat(85)), Ok(()));
}

#[test]
fn preview_row_actions() {
    let p = preview(
        &[
            ("  ", "x.txt"),
            (" a.txt ", " b.txt "),
            ("c.txt", "bad:name"),
            ("gone.txt", "new.txt"),
            ("d.txt", ""),
        ],
        &["a.txt", "c.txt", "d.txt"],
    );
    assert!(p.blocking_error.is_none());
    assert_eq!(
        p.actions,
        vec![
            RowAction::Rename {
                old_name: "a.txt".into(),
                new_name: "b.txt".into()
            },
            RowAction::Reject {
                old_name: "c.txt".into(),
                new_name: "bad:name".into(),
                reason: "文件名包含非法字符: ':'".into()
            },
            RowAction::Reject {
                old_name: "gone.txt".into(),
                new_name: "new.txt".into(),
                reason: "当前文件在目录中不存在".into()
            },
            RowAction::Skip {
                old_name: "d.txt".into(),
                reason: "新文件名称为空，跳过".into()
            },
        ]
    );
    assert_eq!(p.rename_count(), 1);
    assert_eq!(p.reject_count(), 2);
    assert_eq!(p.skip_count(), 1);
    assert_eq!(
        p.planned_renames(),
        vec![("a.txt".to_string(), "b.txt".to_string())]
    );
}

#[test]
fn preview_same_name_skip_reason() {
    let p = preview(&[("a.txt", " a.txt")], &["a.txt"]);
    assert_eq!(
        p.actions,
        vec![RowAction::Skip {
            old_name: "a.txt".into(),
            reason: "新旧名称相同，跳过".into()
        }]
    );
}

#[test]
fn duplicate_message_lists_the_name_once() {
    let p = preview(
        &[("a.txt", "c.txt"), ("b.txt", "c.txt"), ("e.txt", "c.txt")],
        &["a.txt", "b.txt", "e.txt"],
    );
    assert_eq!(
        p.blocking_error,
        Some("存在重复的新文件名称，整批拒绝执行: c.txt".to_string())
    );
    // The actions stay as the rows asked, unchecked against the directory.
    assert_eq!(p.rename_count(), 3);
}

#[test]
fn duplicate_message_joins_names() {
    let p = preview(
        &[("a", "x"), ("b", "x"), ("c", "y"), ("d", "y")],
        &["a", "b", "c", "d"],
    );
    let msg = p.blocking_error.unwrap();
    assert!(
        msg == "存在重复的新文件名称，整批拒绝执行: x、y"
            || msg == "存在重复的新文件名称，整批拒绝执行: y、x"
    );
}

#[test]
fn chain_into_moving_file_is_allowed() {
    // b.txt exists but is renamed away in the same batch.
    let p = preview(&[("a.txt", "b.txt"), ("b.txt", "c.txt")], &["a.txt", "b.txt"]);
    assert!(p.blocking_error.is_none());
    assert_eq!(p.rename_count(), 2);
    assert_eq!(p.reject_count(), 0);
}

#[test]
fn target_flag_comes_from_the_caller() {
    // The new name is taken by an entry that is not a listed file (a directory).
    let rows = rows(&[("a.txt", "sub")]);
    let disk = files(&["a.txt"]);
    let p = build_preview(&rows, &disk, &[true]);
    assert_eq!(
        p.actions,
        vec![RowAction::Reject {
            old_name: "a.txt".into(),
            new_name: "sub".into(),
            reason: "目标文件名已存在，拒绝覆盖".into()
        }]
    );
    let p = build_preview(&rows, &disk, &[false]);
    assert_eq!(p.rename_count(), 1);
}

#[test]
fn empty_table_gives_empty_preview() {
    let p = build_preview(&[], &[], &[]);
    assert!(p.actions.is_empty());
    assert!(p.blocking_error.is_none());
    assert!(p.planned_renames().is_empty());
}

#[test]
fn restore_preview_reads_the_table_backwards() {
    // After `a.txt -> b.txt` and `c.txt -> d.txt` ran, the directory holds
    // b.txt and d.txt; the restore renames them back.
    let rows = rows(&[("a.txt", "b.txt"), ("c.txt", "d.txt"), ("e.txt", "")]);
    let disk = files(&["b.txt", "d.txt"]);
    let p = build_restore_preview(&rows, &disk, &[false, false, false]);
    assert!(p.blocking_error.is_none());
    assert_eq!(
        p.planned_renames(),
        vec![
            ("b.txt".to_string(), "a.txt".to_string()),
            ("d.txt".to_string(), "c.txt".to_string())
        ]
    );
    // The row with no new name has no current file to restore and is skipped.
    assert_eq!(p.skip_count(), 0);
    assert_eq!(p.actions.len(), 2);
}

#[test]
fn refused_rename_does_not_free_its_name() {
    // b.txt -> c.txt is refused (c.txt exists), so b.txt stays where it is and
    // a.txt -> b.txt would overwrite it: it is refused too.
    let p = preview(
        &[("a.txt", "b.txt"), ("b.txt", "c.txt")],
        &["a.txt", "b.txt", "c.txt"],
    );
    assert!(p.blocking_error.is_none());
    assert_eq!(p.rename_count(), 0);
    assert_eq!(
        p.actions,
        vec![
            RowAction::Reject {
                old_name: "a.txt".into(),
                new_name: "b.txt".into(),
                reason: "目标文件名已存在，拒绝覆盖".into()
            },
            RowAction::Reject {
                old_name: "b.txt".into(),
                new_name: "c.txt".into(),
                reason: "目标文件名已存在，拒绝覆盖".into()
            },
        ]
    );
}

#[test]
fn refusals_travel_along_a_chain() {
    // d.txt exists and is not renamed: c -> d is refused, then b -> c, then a -> b.
    let p = preview(
        &[("a", "b"), ("b", "c"), ("c", "d"), ("x", "y")],
        &["a", "b", "c", "d", "x"],
    );
    assert_eq!(p.rename_count(), 1);
    assert_eq!(p.planned_renames(), vec![("x".to_string(), "y".to_string())]);
}

#[test]
fn batch_runs_only_when_every_check_passes() {
    let ok = preview(&[("a.txt", "b.txt")], &["a.txt"]);
    assert_eq!(
        batch_to_run(true, Some(&ok), true, false),
        Ok(vec![("a.txt".to_string(), "b.txt".to_string())])
    );
    assert_eq!(
        batch_to_run(false, Some(&ok), true, false),
        Err("请先选择根目录".to_string())
    );
    assert_eq!(
        batch_to_run(true, None, true, false),
        Err("请先选择 Excel 文件".to_string())
    );
    assert_eq!(
        batch_to_run(true, None, true, true),
        Err("请先选择用于还原的 Excel 对照表".to_string())
    );
    assert_eq!(
        batch_to_run(true, Some(&ok), false, false),
        Err("请先勾选：我已核对 Excel，确认扩展名与新文件名称无误".to_string())
    );
    assert_eq!(
        batch_to_run(true, Some(&ok), false, true),
        Err("请先勾选：我已核对，确认把新文件名改回原来的名字".to_string())
    );
}

#[test]
fn blocked_or_empty_batch_is_refused() {
    let blocked = preview(&[("a.txt", "c.txt"), ("b.txt", "c.txt")], &["a.txt", "b.txt"]);
    // The blocked preview still lists its renames, but the batch may not run.
    assert_eq!(blocked.planned_renames().len(), 2);
    assert_eq!(
        batch_to_run(true, Some(&blocked), true, false),
        Err("存在重复的新文件名称，整批拒绝执行: c.txt".to_string())
    );
    let empty = preview(&[("a.txt", "")], &["a.txt"]);
    assert_eq!(
        batch_to_run(true, Some(&empty), true, false),
        Err("没有可执行的改名项".to_string())
    );
    assert_eq!(
        batch_to_run(true, Some(&empty), true, true),
        Err("对照表中没有可还原的改名项（请确认文件夹里现在是新文件名）".to_string())
    );
    // The order of the checks: the directory first, then the preview's error.
    assert_eq!(
        batch_to_run(false, Some(&blocked), false, false),
        Err("请先选择根目录".to_string())
    );
    assert_eq!(
        batch_to_run(true, Some(&blocked), false, false),
        Err("存在重复的新文件名称，整批拒绝执行: c.txt".to_string())
    );
}
