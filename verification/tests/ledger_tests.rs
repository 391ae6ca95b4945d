use std::path::Path;

use batch_file_renamer::ledger::{
    backup_root, backup_stamp, latest_backup, mark_failed, mark_success, EntryStatus, Ledger,
};

#[test]
fn json_path_is_in_the_backup_directory() {
    let dir = "/data/rename_backup/20240101_120000";
    let p = Ledger::json_path(dir);
    assert_eq!(
        p,
        Path::new(dir).join("rename_map.json").to_string_lossy().into_owned()
    );
    assert!(p.ends_with("rename_map.json"));
    assert_ne!(p, "rename_map.json");
}

#[test]
fn backup_root_is_under_the_data_directory() {
    let p = backup_root("/data");
    assert_eq!(
        p,
        Path::new("/data").join("rename_backup").to_string_lossy().into_owned()
    );
    assert_eq!(backup_root("/data/"), Path::new("/data/").join("rename_backup").to_string_lossy());
}

#[test]
fn new_ledger_plans_every_pair() {
    let l = Ledger::new(
        "/data",
        &[
            ("a".to_string(), "b".to_string()),
            ("a".to_string(), "c".to_string()),
        ],
    );
    assert_eq!(l.version, 1);
    assert_eq!(l.root, "/data");
    // `YYYY-mm-dd HH:MM:SS`
    assert_eq!(l.created_at.len(), 19);
    assert_eq!(&l.created_at[4..5], "-");
    assert_eq!(&l.created_at[10..11], " ");
    assert_eq!(l.entries.len(), 2);
    assert!(l
        .entries
        .iter()
        .all(|e| e.status == EntryStatus::Planned && e.error.is_none()));
    assert_eq!(l.entries[1].new_name, "c");
}

#[test]
fn marks_go_to_the_first_matching_entry() {
    let mut l = Ledger::new(
        "/data",
        &[
            ("a".to_string(), "b".to_string()),
            ("a".to_string(), "c".to_string()),
            ("d".to_string(), "e".to_string()),
        ],
    );
    mark_failed(&mut l, &"a".to_string(), "first");
    assert_eq!(l.entries[0].status, EntryStatus::Failed);
    assert_eq!(l.entries[0].error.as_deref(), Some("first"));
    assert_eq!(l.entries[1].status, EntryStatus::Planned);
    mark_success(&mut l, &"a".to_string());
    assert_eq!(l.entries[0].status, EntryStatus::Success);
    assert!(l.entries[0].error.is_none());
    // A name that is in no entry changes nothing.
    mark_success(&mut l, &"zzz".to_string());
    assert_eq!(l.entries[2].status, EntryStatus::Planned);
}

#[test]
fn latest_backup_is_the_last_stamp() {
    let names: Vec<String> = ["20240101_000000", "20250301_101010", "20230101_000000"]
        .iter()
        .map(|s| s.to_string())
        .collect();
    assert_eq!(latest_backup(&names), Some(1));
    assert_eq!(latest_backup(&[]), None);
    let names: Vec<String> = vec!["rollback_20250101_000000".into(), "20250101_000000".into()];
    assert_eq!(latest_backup(&names), Some(0));
}

#[test]
fn backup_stamp_shape() {
    let s = backup_stamp();
    assert_eq!(s.len(), 15);
    assert_eq!(&s[8..9], "_");
}

#[test]
fn latest_backup_reads_the_stamp_after_the_rollback_prefix() {
    let names: Vec<String> = vec![
        "rollback_20240101_000000".into(),
        "20250101_000000".into(),
        "20240601_000000".into(),
    ];
    // The newest run wins over an older rollback, whatever the names' order.
    assert_eq!(latest_backup(&names), Some(1));
    let names: Vec<String> = vec![
        "20240101_000000".into(),
        "rollback_20250101_000000".into(),
        "20241231_235959".into(),
    ];
    assert_eq!(latest_backup(&names), Some(1));
}
