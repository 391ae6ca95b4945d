use std::collections::BTreeMap;

use batch_file_renamer::ledger::{EntryStatus, Ledger, LedgerError};
use batch_file_renamer::rename::{
    apply_renames, rollback_dir_name, rollback_pairs, temp_name_candidate, RenameError,
    RenameOutcome, RenameReply, RenameRun, RenameStep,
};

/// A directory held in memory: file name to contents.
struct MemDir {
    files: BTreeMap<String, Vec<u8>>,
    /// Renames that fail (by prefixes of their two names), with the message they
    /// fail with.
    failing: Vec<(String, String, String)>,
    /// How many ledger writes succeed before one fails (`None`: all succeed).
    ledger_writes_left: Option<usize>,
    ledger_copies: Vec<Ledger>,
    moves: Vec<(String, String)>,
}

impl MemDir {
    fn new(files: &[(&str, &[u8])]) -> MemDir {
        MemDir {
            files: files
                .iter()
                .map(|(n, c)| (n.to_string(), c.to_vec()))
                .collect(),
            failing: Vec::new(),
            ledger_writes_left: None,
            ledger_copies: Vec::new(),
            moves: Vec::new(),
        }
    }

    fn fail(mut self, from: &str, to_prefix: &str, msg: &str) -> MemDir {
        self.failing
            .push((from.to_string(), to_prefix.to_string(), msg.to_string()));
        self
    }

    fn read(&self, name: &str) -> Option<&[u8]> {
        self.files.get(name).map(|v| v.as_slice())
    }

    fn reply(&mut self, run: &RenameRun, step: RenameStep) -> RenameReply {
        match step {
            RenameStep::WriteLedger => {
                if let Some(left) = self.ledger_writes_left {
                    if left == 0 {
                        return RenameReply::LedgerWritten(Err(LedgerError::Io(
                            "disk full".into(),
                        )));
                    }
                    self.ledger_writes_left = Some(left - 1);
                }
                self.ledger_copies.push(run.ledger().clone());
                RenameReply::LedgerWritten(Ok("backup/rename_map.json".into()))
            }
            RenameStep::CheckSource { name } => {
                RenameReply::SourceChecked(self.files.contains_key(&name))
            }
            RenameStep::NeedTempName => loop {
                let t = temp_name_candidate();
                if !self.files.contains_key(&t) {
                    return RenameReply::TempName(t);
                }
            },
            RenameStep::Move { from, to } => {
                self.moves.push((from.clone(), to.clone()));
                for (f, t, msg) in &self.failing {
                    if from.starts_with(f.as_str()) && to.starts_with(t.as_str()) {
                        return RenameReply::Moved(Err(msg.clone()));
                    }
                }
                match self.files.remove(&from) {
                    Some(c) => {
                        self.files.insert(to, c);
                        RenameReply::Moved(Ok(()))
                    }
                    None => RenameReply::Moved(Err(format!("{from}: not found"))),
                }
            }
            RenameStep::Finished => panic!("a finished run has no step to answer"),
        }
    }

    /// Drives a run to its end.
    fn drive(&mut self, mut run: RenameRun) -> Result<RenameOutcome, RenameError> {
        loop {
            let step = run.step();
            if let RenameStep::Finished = step {
                return run.into_outcome().expect("finished run has an outcome");
            }
            let reply = self.reply(&run, step);
            run = run.advance(reply);
        }
    }

    fn apply(&mut self, pairs: &[(&str, &str)]) -> Result<RenameOutcome, RenameError> {
        let pairs: Vec<(String, String)> = pairs
            .iter()
            .map(|(a, b)| (a.to_string(), b.to_string()))
            .collect();
        let run = apply_renames("/data", &pairs)?;
        self.drive(run)
    }

    fn rollback(&mut self, ledger: &Ledger) -> Result<RenameOutcome, RenameError> {
        let pairs = rollback_pairs(ledger)?;
        let run = apply_renames("/data", &pairs)?;
        self.drive(run)
    }
}

fn statuses(out: &RenameOutcome) -> Vec<EntryStatus> {
    out.ledger.entries.iter().map(|e| e.status).collect()
}

#[test]
fn swaps_two_files() {
    let mut dir = MemDir::new(&[("a.txt", b"AAA"), ("b.txt", b"BBB")]);
    let out = dir.apply(&[("a.txt", "b.txt"), ("b.txt", "a.txt")]).unwrap();
    assert_eq!(out.success, 2);
    assert_eq!(dir.read("a.txt").unwrap(), b"BBB");
    assert_eq!(dir.read("b.txt").unwrap(), b"AAA");
}

#[test]
fn rollback_restores_names() {
    let mut dir = MemDir::new(&[("old.bam", b"data")]);
    let out = dir.apply(&[("old.bam", "new.bam")]).unwrap();
    assert!(dir.read("new.bam").is_some());
    dir.rollback(&out.ledger).unwrap();
    assert!(dir.read("old.bam").is_some());
    assert!(dir.read("new.bam").is_none());
}

#[test]
fn chain_rename() {
    let mut dir = MemDir::new(&[("a.txt", b"A"), ("b.txt", b"B")]);
    dir.apply(&[("a.txt", "b.txt"), ("b.txt", "c.txt")]).unwrap();
    assert_eq!(dir.read("b.txt").unwrap(), b"A");
    assert_eq!(dir.read("c.txt").unwrap(), b"B");
    assert!(dir.read("a.txt").is_none());
}

#[test]
fn empty_batch_is_refused() {
    assert!(matches!(apply_renames("/data", &[]), Err(RenameError::Empty)));
}

#[test]
fn new_run_asks_for_the_ledger_first() {
    let run = apply_renames("/data", &[("a".to_string(), "b".to_string())]).unwrap();
    assert!(matches!(run.step(), RenameStep::WriteLedger));
    let l = run.ledger();
    assert_eq!(l.version, 1);
    assert_eq!(l.root, "/data");
    assert_eq!(l.entries.len(), 1);
    assert_eq!(l.entries[0].old_name, "a");
    assert_eq!(l.entries[0].new_name, "b");
    assert_eq!(l.entries[0].status, EntryStatus::Planned);
    assert!(l.entries[0].error.is_none());
    assert!(run.into_outcome().is_none());
}

#[test]
fn clean_batch_uses_temporary_names() {
    let mut dir = MemDir::new(&[("a", b"1"), ("b", b"2")]);
    let out = dir.apply(&[("a", "b"), ("b", "a")]).unwrap();
    assert_eq!(out.success, 2);
    assert_eq!(out.failed, 0);
    assert_eq!(out.ledger_path, "backup/rename_map.json");
    // Two writes of the ledger: before and after.
    assert_eq!(dir.ledger_copies.len(), 2);
    assert!(dir.ledger_copies[0]
        .entries
        .iter()
        .all(|e| e.status == EntryStatus::Planned));
    assert_eq!(statuses(&out), vec![EntryStatus::Success, EntryStatus::Success]);
    // Four moves: two to temporary names, then two to the new names.
    assert_eq!(dir.moves.len(), 4);
    assert_eq!(dir.moves[0].0, "a");
    assert!(dir.moves[0].1.starts_with(".__batch_rename_tmp_"));
    assert_eq!(dir.moves[1].0, "b");
    assert_eq!(dir.moves[2], (dir.moves[0].1.clone(), "b".to_string()));
    assert_eq!(dir.moves[3], (dir.moves[1].1.clone(), "a".to_string()));
    assert_eq!(dir.files.len(), 2);
}

#[test]
fn missing_source_is_marked_failed() {
    let mut dir = MemDir::new(&[("a", b"1")]);
    let out = dir.apply(&[("gone", "x"), ("a", "b")]).unwrap();
    assert_eq!(out.success, 1);
    assert_eq!(out.failed, 1);
    assert_eq!(out.ledger.entries[0].status, EntryStatus::Failed);
    assert_eq!(
        out.ledger.entries[0].error.as_deref(),
        Some("当前文件不存在")
    );
    assert_eq!(out.ledger.entries[1].status, EntryStatus::Success);
    assert_eq!(dir.read("b").unwrap(), b"1");
}

#[test]
fn first_phase_failure_undoes_everything() {
    let mut dir = MemDir::new(&[("a", b"1"), ("b", b"2"), ("c", b"3"), ("d", b"4")])
        .fail("c", ".__batch_rename_tmp_", "c: permission denied");
    let out = dir
        .apply(&[("a", "x"), ("b", "y"), ("c", "z"), ("d", "w")])
        .unwrap();
    assert_eq!(out.success, 0);
    assert_eq!(out.failed, 4);
    let errors: Vec<Option<String>> = out.ledger.entries.iter().map(|e| e.error.clone()).collect();
    assert_eq!(
        errors,
        vec![
            Some("已回退临时名：第一阶段失败".to_string()),
            Some("已回退临时名：第一阶段失败".to_string()),
            Some("c: permission denied".to_string()),
            Some("未执行：前置改名已失败".to_string()),
        ]
    );
    // Every file is back under its current name.
    assert_eq!(dir.read("a").unwrap(), b"1");
    assert_eq!(dir.read("b").unwrap(), b"2");
    assert_eq!(dir.read("c").unwrap(), b"3");
    assert_eq!(dir.read("d").unwrap(), b"4");
    assert_eq!(dir.files.len(), 4);
    // The staged files went back in reverse order.
    let n = dir.moves.len();
    assert_eq!(dir.moves[n - 2].1, "b");
    assert_eq!(dir.moves[n - 1].1, "a");
}

#[test]
fn second_phase_failure_reverts_that_file() {
    let mut dir = MemDir::new(&[("a", b"1"), ("b", b"2")]).fail(
        ".__batch_rename_tmp_",
        "x",
        "x: read-only",
    );
    let out = dir.apply(&[("a", "x"), ("b", "y")]).unwrap();
    assert_eq!(out.success, 1);
    assert_eq!(out.failed, 1);
    assert_eq!(out.ledger.entries[0].error.as_deref(), Some("x: read-only"));
    assert_eq!(dir.read("a").unwrap(), b"1");
    assert_eq!(dir.read("y").unwrap(), b"2");
}

#[test]
fn failed_revert_reports_both_errors() {
    let mut dir = MemDir::new(&[("a", b"1")])
        .fail(".__batch_rename_tmp_", "x", "to x failed")
        .fail(".__batch_rename_tmp_", "a", "back failed");
    let out = dir.apply(&[("a", "x")]).unwrap();
    assert_eq!(out.success, 0);
    assert_eq!(out.failed, 1);
    assert_eq!(
        out.ledger.entries[0].error.as_deref(),
        Some("to x failed；且无法恢复原名: back failed")
    );
}

#[test]
fn ledger_write_failure_stops_the_run() {
    let mut dir = MemDir::new(&[("a", b"1")]);
    dir.ledger_writes_left = Some(0);
    let r = dir.apply(&[("a", "b")]);
    assert!(matches!(r, Err(RenameError::Ledger(LedgerError::Io(_)))));
    assert!(dir.moves.is_empty());
    assert_eq!(dir.read("a").unwrap(), b"1");

    let mut dir = MemDir::new(&[("a", b"1")]);
    dir.ledger_writes_left = Some(1);
    let r = dir.apply(&[("a", "b")]);
    assert!(matches!(r, Err(RenameError::Ledger(LedgerError::Io(_)))));
    // The renames were made before the final write failed.
    assert_eq!(dir.read("b").unwrap(), b"1");
}

#[test]
fn a_reply_to_another_step_changes_nothing() {
    let run = apply_renames("/data", &[("a".to_string(), "b".to_string())]).unwrap();
    let run = run.advance(RenameReply::SourceChecked(true));
    assert!(matches!(run.step(), RenameStep::WriteLedger));
}

#[test]
fn rollback_pairs_take_only_successes() {
    let mut dir = MemDir::new(&[("a", b"1"), ("b", b"2")]);
    let out = dir.apply(&[("a", "x"), ("gone", "z"), ("b", "y")]).unwrap();
    let pairs = rollback_pairs(&out.ledger).unwrap();
    assert_eq!(
        pairs,
        vec![
            ("x".to_string(), "a".to_string()),
            ("y".to_string(), "b".to_string())
        ]
    );
    let back = dir.rollback(&out.ledger).unwrap();
    assert_eq!(back.success, 2);
    assert_eq!(dir.read("a").unwrap(), b"1");
    assert_eq!(dir.read("b").unwrap(), b"2");
}

#[test]
fn rollback_without_successes_is_refused() {
    let mut dir = MemDir::new(&[]);
    let out = dir.apply(&[("gone", "z")]).unwrap();
    assert_eq!(out.success, 0);
    assert!(matches!(rollback_pairs(&out.ledger), Err(RenameError::Empty)));
}

#[test]
fn temp_names_are_hidden_and_random() {
    let a = temp_name_candidate();
    let b = temp_name_candidate();
    assert!(a.starts_with(".__batch_rename_tmp_"));
    assert_eq!(a.len(), ".__batch_rename_tmp_".len() + 32);
    assert!(a[".__batch_rename_tmp_".len()..]
        .chars()
        .all(|c| c.is_ascii_hexdigit() && !c.is_ascii_uppercase()));
    assert_ne!(a, b);
}

#[test]
fn rollback_directory_is_time_stamped() {
    let name = rollback_dir_name();
    assert!(name.starts_with("rollback_"));
    let stamp = &name["rollback_".len()..];
    assert_eq!(stamp.len(), 15);
    assert_eq!(&stamp[8..9], "_");
    assert!(stamp
        .chars()
        .enumerate()
        .all(|(i, c)| i == 8 || c.is_ascii_digit()));
}

#[test]
fn ledger_keeps_one_entry_per_pair() {
    let mut dir = MemDir::new(&[("a", b"1"), ("b", b"2"), ("c", b"3")]).fail(
        ".__batch_rename_tmp_",
        "y",
        "y: busy",
    );
    let pairs = [("a", "x"), ("gone", "q"), ("b", "y"), ("c", "a")];
    let out = dir.apply(&pairs).unwrap();
    assert_eq!(out.ledger.entries.len(), pairs.len());
    for (entry, (old, new)) in out.ledger.entries.iter().zip(pairs.iter()) {
        assert_eq!(entry.old_name, *old);
        assert_eq!(entry.new_name, *new);
    }
    assert_eq!(
        statuses(&out),
        vec![
            EntryStatus::Success,
            EntryStatus::Failed,
            EntryStatus::Failed,
            EntryStatus::Success
        ]
    );
    assert_eq!(dir.read("x").unwrap(), b"1");
    assert_eq!(dir.read("b").unwrap(), b"2");
    assert_eq!(dir.read("a").unwrap(), b"3");
}

#[test]
fn finished_run_decides_every_entry_and_names_only_its_batch() {
    let mut dir = MemDir::new(&[("a", b"1"), ("b", b"2"), ("c", b"3"), ("other", b"o")])
        .fail(".__batch_rename_tmp_", "y", "y: busy");
    let pairs = [("a", "x"), ("gone", "q"), ("b", "y"), ("c", "a")];
    let out = dir.apply(&pairs).unwrap();
    for e in &out.ledger.entries {
        match e.status {
            EntryStatus::Success => assert!(e.error.is_none()),
            EntryStatus::Failed => assert!(e.error.is_some()),
            other => panic!("undecided entry: {other:?}"),
        }
    }
    let batch: Vec<&str> = pairs.iter().flat_map(|(a, b)| [*a, *b]).collect();
    for (from, to) in &dir.moves {
        for name in [from, to] {
            assert!(
                batch.contains(&name.as_str()) || name.starts_with(".__batch_rename_tmp_"),
                "{name}"
            );
        }
    }
    assert_eq!(dir.read("other").unwrap(), b"o");
}
