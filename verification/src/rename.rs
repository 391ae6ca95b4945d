//! Renaming a batch in two phases: every file first moves to a fresh temporary
//! name, then every temporary name moves to its new name, so that swaps and
//! chains of renames never overwrite each other.
//!
//! The file system is driven from outside: [`apply_renames`] starts a
//! [`RenameRun`], which says which step it needs next ([`RenameRun::step`]) and
//! is told how the step went ([`RenameRun::advance`]) until it is finished.

use vstd::prelude::*;

use crate::clock::{compact_stamp_tail, format_local, is_stamp_text, local_now};
use crate::ledger::{
    entries_view, mark_entry, mark_failed, mark_success, planned_entries, EntryStatus, EntryView,
    Ledger, LedgerEntry, LedgerError, BACKUP_STAMP_PATTERN,
};
use crate::ledger::{stamp_of, ROLLBACK_PREFIX};

verus! {

pub const MSG_NOT_RUN: &'static str = "未执行：前置改名已失败";

pub const MSG_SOURCE_GONE: &'static str = "当前文件不存在";

pub const MSG_ROLLED_BACK: &'static str = "已回退临时名：第一阶段失败";

pub const MSG_CANNOT_RESTORE: &'static str = "；且无法恢复原名: ";

pub const TEMP_PREFIX: &'static str = ".__batch_rename_tmp_";

/// The result of a batch: where its ledger was written, the final ledger, and how
/// many renames succeeded and failed.
#[derive(Debug, Clone)]
pub struct RenameOutcome {
    pub ledger_path: String,
    pub ledger: Ledger,
    pub success: usize,
    pub failed: usize,
}

/// Why a batch could not run.
#[derive(Debug)]
pub enum RenameError {
    Ledger(LedgerError),
    Empty,
}

/// A file moved to its temporary name during the first phase.
pub struct StagedRename {
    pub old_name: String,
    pub new_name: String,
    pub temp_name: String,
}

pub struct StagedView {
    pub old_name: Seq<char>,
    pub new_name: Seq<char>,
    pub temp_name: Seq<char>,
}

impl View for StagedRename {
    type V = StagedView;

    open spec fn view(&self) -> StagedView {
        StagedView { old_name: self.old_name@, new_name: self.new_name@, temp_name: self.temp_name@ }
    }
}

pub open spec fn staged_view(v: Seq<StagedRename>) -> Seq<StagedView> {
    v.map_values(|s: StagedRename| s@)
}

/// Where a run stands: each stage but the last waits for the reply to one step.
pub enum Stage {
    /// The first copy of the ledger is being written.
    WriteFirst,
    /// First phase: is the current file of pair `index` there?
    Check { index: usize },
    /// First phase: a fresh temporary name is wanted for pair `index`.
    Temp { index: usize },
    /// First phase: the file of pair `index` is moving to `temp`.
    Park { index: usize, temp: String },
    /// First phase failed at pair `index` with `error`; staged file `left - 1`
    /// is moving back to its current name.
    Restore { index: usize, error: String, left: usize },
    /// Second phase: staged file `index` is moving to its new name.
    Commit { index: usize },
    /// Second phase: staged file `index` could not get its new name (`error`) and
    /// is moving back to its current name.
    Revert { index: usize, error: String },
    /// The final copy of the ledger is being written.
    WriteLast,
    /// The run is over; `error` is the ledger error that ended it, if any.
    Done { error: Option<LedgerError> },
}

pub enum StageView {
    WriteFirst,
    Check { index: int },
    Temp { index: int },
    Park { index: int, temp: Seq<char> },
    Restore { index: int, error: Seq<char>, left: int },
    Commit { index: int },
    Revert { index: int, error: Seq<char> },
    WriteLast,
    Done { error: Option<LedgerError> },
}

impl View for Stage {
    type V = StageView;

    open spec fn view(&self) -> StageView {
        match self {
            Stage::WriteFirst => StageView::WriteFirst,
            Stage::Check { index } => StageView::Check { index: *index as int },
            Stage::Temp { index } => StageView::Temp { index: *index as int },
            Stage::Park { index, temp } => StageView::Park { index: *index as int, temp: temp@ },
            Stage::Restore { index, error, left } => StageView::Restore {
                index: *index as int,
                error: error@,
                left: *left as int,
            },
            Stage::Commit { index } => StageView::Commit { index: *index as int },
            Stage::Revert { index, error } => StageView::Revert {
                index: *index as int,
                error: error@,
            },
            Stage::WriteLast => StageView::WriteLast,
            Stage::Done { error } => StageView::Done { error: *error },
        }
    }
}

/// What a run needs done next.
#[derive(Debug)]
pub enum RenameStep {
    /// Write the ledger (`RenameRun::ledger`) to the backup directory.
    WriteLedger,
    /// Tell whether `name` is a regular file in the data directory.
    CheckSource { name: String },
    /// Supply a temporary name that is free in the data directory.
    NeedTempName,
    /// Rename `from` to `to` in the data directory.
    Move { from: String, to: String },
    /// Nothing: the run is over.
    Finished,
}

pub enum StepView {
    WriteLedger,
    CheckSource { name: Seq<char> },
    NeedTempName,
    Move { from: Seq<char>, to: Seq<char> },
    Finished,
}

impl View for RenameStep {
    type V = StepView;

    open spec fn view(&self) -> StepView {
        match self {
            RenameStep::WriteLedger => StepView::WriteLedger,
            RenameStep::CheckSource { name } => StepView::CheckSource { name: name@ },
            RenameStep::NeedTempName => StepView::NeedTempName,
            RenameStep::Move { from, to } => StepView::Move { from: from@, to: to@ },
            RenameStep::Finished => StepView::Finished,
        }
    }
}

/// How the last step went.
#[derive(Debug)]
pub enum RenameReply {
    /// The ledger was written, to the path given, or could not be.
    LedgerWritten(Result<String, LedgerError>),
    /// Whether the current file is a regular file.
    SourceChecked(bool),
    /// A free temporary name.
    TempName(String),
    /// Whether the rename went through, with the error message when it did not.
    Moved(Result<(), String>),
}

pub enum ReplyView {
    LedgerWritten(Result<Seq<char>, LedgerError>),
    SourceChecked(bool),
    TempName(Seq<char>),
    Moved(Result<(), Seq<char>>),
}

impl View for RenameReply {
    type V = ReplyView;

    open spec fn view(&self) -> ReplyView {
        match self {
            RenameReply::LedgerWritten(Ok(p)) => ReplyView::LedgerWritten(Ok(p@)),
            RenameReply::LedgerWritten(Err(e)) => ReplyView::LedgerWritten(Err(*e)),
            RenameReply::SourceChecked(b) => ReplyView::SourceChecked(*b),
            RenameReply::TempName(t) => ReplyView::TempName(t@),
            RenameReply::Moved(Ok(())) => ReplyView::Moved(Ok(())),
            RenameReply::Moved(Err(e)) => ReplyView::Moved(Err(e@)),
        }
    }
}

/// A batch of renames in progress.
pub struct RenameRun {
    pairs: Vec<(String, String)>,
    ledger: Ledger,
    staged: Vec<StagedRename>,
    phase1_ok: bool,
    stage: Stage,
    ledger_path: String,
}

pub struct RunView {
    pub pairs: Seq<(Seq<char>, Seq<char>)>,
    pub version: u32,
    pub root: Seq<char>,
    pub created_at: Seq<char>,
    pub entries: Seq<EntryView>,
    pub staged: Seq<StagedView>,
    pub phase1_ok: bool,
    pub stage: StageView,
    pub ledger_path: Seq<char>,
}

pub open spec fn pairs_view(v: Seq<(String, String)>) -> Seq<(Seq<char>, Seq<char>)> {
    v.map_values(|p: (String, String)| (p.0@, p.1@))
}

/// The state made of the parts of a run.
pub open spec fn parts_view(
    pairs: Seq<(String, String)>,
    ledger: Ledger,
    staged: Seq<StagedRename>,
    phase1_ok: bool,
    stage: StageView,
    ledger_path: Seq<char>,
) -> RunView {
    RunView {
        pairs: pairs_view(pairs),
        version: ledger.version,
        root: ledger.root@,
        created_at: ledger.created_at@,
        entries: entries_view(ledger.entries@),
        staged: staged_view(staged),
        phase1_ok,
        stage,
        ledger_path,
    }
}

impl View for RenameRun {
    type V = RunView;

    closed spec fn view(&self) -> RunView {
        parts_view(
            self.pairs@,
            self.ledger,
            self.staged@,
            self.phase1_ok,
            self.stage@,
            self.ledger_path@,
        )
    }
}

/// The indices that a stage refers to are in range.
pub open spec fn run_wf(s: RunView) -> bool {
    match s.stage {
        StageView::Check { index } => 0 <= index < s.pairs.len(),
        StageView::Temp { index } => 0 <= index < s.pairs.len(),
        StageView::Park { index, .. } => 0 <= index < s.pairs.len(),
        StageView::Restore { index, left, .. } => 0 <= index < s.pairs.len() && 1 <= left
            <= s.staged.len(),
        StageView::Commit { index } => 0 <= index < s.staged.len(),
        StageView::Revert { index, .. } => 0 <= index < s.staged.len(),
        _ => true,
    }
}

impl RenameRun {
    #[verifier::type_invariant]
    spec fn well_formed(self) -> bool {
        run_wf(self@)
    }
}

/// `s` with other entries.
pub open spec fn with_entries(s: RunView, entries: Seq<EntryView>) -> RunView {
    RunView { entries, ..s }
}

/// `s` at another stage.
pub open spec fn at_stage(s: RunView, stage: StageView) -> RunView {
    RunView { stage, ..s }
}

/// Marks failed, one after the other, the entries of the current names `olds`.
pub open spec fn mark_all_failed(es: Seq<EntryView>, olds: Seq<Seq<char>>, reason: Seq<char>) -> Seq<
    EntryView,
>
    decreases olds.len(),
{
    if olds.len() == 0 {
        es
    } else {
        mark_entry(
            mark_all_failed(es, olds.drop_last(), reason),
            olds.last(),
            EntryStatus::Failed,
            Some(reason),
        )
    }
}

/// The second phase, from staged file `j` on.
pub open spec fn commit_from(s: RunView, j: int) -> RunView {
    if j >= s.staged.len() {
        at_stage(s, StageView::WriteLast)
    } else {
        at_stage(s, StageView::Commit { index: j })
    }
}

/// The first phase, from pair `i` on: once it has failed, each remaining pair is
/// only marked as not run; when all pairs are done the second phase begins.
pub open spec fn scan_from(s: RunView, i: int) -> RunView
    decreases s.pairs.len() - i,
{
    if i >= s.pairs.len() || i < 0 {
        commit_from(s, 0)
    } else if !s.phase1_ok {
        scan_from(
            with_entries(
                s,
                mark_entry(s.entries, s.pairs[i].0, EntryStatus::Failed, Some(MSG_NOT_RUN@)),
            ),
            i + 1,
        )
    } else {
        at_stage(s, StageView::Check { index: i })
    }
}

/// Undoing the first phase after pair `i` failed with `error`, with `k` staged
/// files still to move back; when none is left, pair `i` and every staged pair are
/// marked failed and the first phase goes on (only marking) from pair `i + 1`.
pub open spec fn restore_from(s: RunView, i: int, error: Seq<char>, k: int) -> RunView {
    if k <= 0 {
        let es1 = mark_entry(s.entries, s.pairs[i].0, EntryStatus::Failed, Some(error));
        let es2 = mark_all_failed(
            es1,
            s.staged.map_values(|t: StagedView| t.old_name),
            MSG_ROLLED_BACK@,
        );
        scan_from(RunView { entries: es2, staged: Seq::empty(), ..s }, i + 1)
    } else {
        at_stage(s, StageView::Restore { index: i, error, left: k })
    }
}

/// The state a run is in after `reply` answers its current step. A reply that
/// does not answer the current step leaves the run as it is.
pub open spec fn run_next(s: RunView, reply: ReplyView) -> RunView {
    match (s.stage, reply) {
        (StageView::WriteFirst, ReplyView::LedgerWritten(Ok(path))) => scan_from(
            RunView { ledger_path: path, ..s },
            0,
        ),
        (StageView::WriteFirst, ReplyView::LedgerWritten(Err(e))) => at_stage(
            s,
            StageView::Done { error: Some(e) },
        ),
        (StageView::Check { index }, ReplyView::SourceChecked(is_file)) => if is_file {
            at_stage(s, StageView::Temp { index })
        } else {
            scan_from(
                with_entries(
                    s,
                    mark_entry(
                        s.entries,
                        s.pairs[index].0,
                        EntryStatus::Failed,
                        Some(MSG_SOURCE_GONE@),
                    ),
                ),
                index + 1,
            )
        },
        (StageView::Temp { index }, ReplyView::TempName(temp)) => at_stage(
            s,
            StageView::Park { index, temp },
        ),
        (StageView::Park { index, temp }, ReplyView::Moved(Ok(()))) => scan_from(
            RunView {
                staged: s.staged.push(
                    StagedView {
                        old_name: s.pairs[index].0,
                        new_name: s.pairs[index].1,
                        temp_name: temp,
                    },
                ),
                ..s
            },
            index + 1,
        ),
        (StageView::Park { index, .. }, ReplyView::Moved(Err(e))) => restore_from(
            RunView { phase1_ok: false, ..s },
            index,
            e,
            s.staged.len() as int,
        ),
        (StageView::Restore { index, error, left }, ReplyView::Moved(_)) => restore_from(
            s,
            index,
            error,
            left - 1,
        ),
        (StageView::Commit { index }, ReplyView::Moved(Ok(()))) => commit_from(
            with_entries(
                s,
                mark_entry(s.entries, s.staged[index].old_name, EntryStatus::Success, None),
            ),
            index + 1,
        ),
        (StageView::Commit { index }, ReplyView::Moved(Err(e))) => at_stage(
            s,
            StageView::Revert { index, error: e },
        ),
        (StageView::Revert { index, error }, ReplyView::Moved(Ok(()))) => commit_from(
            with_entries(
                s,
                mark_entry(s.entries, s.staged[index].old_name, EntryStatus::Failed, Some(error)),
            ),
            index + 1,
        ),
        (StageView::Revert { index, error }, ReplyView::Moved(Err(back))) => commit_from(
            with_entries(
                s,
                mark_entry(
                    s.entries,
                    s.staged[index].old_name,
                    EntryStatus::Failed,
                    Some(error + MSG_CANNOT_RESTORE@ + back),
                ),
            ),
            index + 1,
        ),
        (StageView::WriteLast, ReplyView::LedgerWritten(Ok(_))) => at_stage(
            s,
            StageView::Done { error: None },
        ),
        (StageView::WriteLast, ReplyView::LedgerWritten(Err(e))) => at_stage(
            s,
            StageView::Done { error: Some(e) },
        ),
        _ => s,
    }
}

/// The step a run in state `s` needs next.
pub open spec fn run_step(s: RunView) -> StepView {
    match s.stage {
        StageView::WriteFirst => StepView::WriteLedger,
        StageView::Check { index } => StepView::CheckSource { name: s.pairs[index].0 },
        StageView::Temp { .. } => StepView::NeedTempName,
        StageView::Park { index, temp } => StepView::Move { from: s.pairs[index].0, to: temp },
        StageView::Restore { left, .. } => StepView::Move {
            from: s.staged[left - 1].temp_name,
            to: s.staged[left - 1].old_name,
        },
        StageView::Commit { index } => StepView::Move {
            from: s.staged[index].temp_name,
            to: s.staged[index].new_name,
        },
        StageView::Revert { index, .. } => StepView::Move {
            from: s.staged[index].temp_name,
            to: s.staged[index].old_name,
        },
        StageView::WriteLast => StepView::WriteLedger,
        StageView::Done { .. } => StepView::Finished,
    }
}

/// The state a run starts in.
pub open spec fn run_start(
    pairs: Seq<(Seq<char>, Seq<char>)>,
    root: Seq<char>,
    created_at: Seq<char>,
) -> RunView {
    RunView {
        pairs,
        version: 1,
        root,
        created_at,
        entries: planned_entries(pairs),
        staged: Seq::empty(),
        phase1_ok: true,
        stage: StageView::WriteFirst,
        ledger_path: Seq::empty(),
    }
}

/// The number of entries with status `st`.
pub open spec fn count_status(es: Seq<EntryView>, st: EntryStatus) -> nat
    decreases es.len(),
{
    if es.len() == 0 {
        0
    } else {
        count_status(es.drop_last(), st) + if es.last().status == st {
            1nat
        } else {
            0nat
        }
    }
}

/// `out` reports the run `s`, which ended without a ledger error.
pub open spec fn outcome_of(s: RunView, out: RenameOutcome) -> bool {
    &&& s.stage == (StageView::Done { error: None })
    &&& out.ledger_path@ == s.ledger_path
    &&& entries_view(out.ledger.entries@) == s.entries
    &&& out.ledger.version == s.version
    &&& out.ledger.root@ == s.root
    &&& out.ledger.created_at@ == s.created_at
    &&& out.success == count_status(s.entries, EntryStatus::Success)
    &&& out.failed == count_status(s.entries, EntryStatus::Failed)
}

/// The run `s` ended with the ledger error carried by `e`.
pub open spec fn failed_with(s: RunView, e: RenameError) -> bool {
    &&& e is Ledger
    &&& s.stage == (StageView::Done { error: Some(e->Ledger_0) })
}

fn count_entries(entries: &Vec<LedgerEntry>, st: EntryStatus) -> (n: usize)
    ensures
        n == count_status(entries_view(entries@), st),
{
    let ghost es = entries_view(entries@);
    let mut n: usize = 0;
    let mut i: usize = 0;
    while i < entries.len()
        invariant
            es == entries_view(entries@),
            i <= entries@.len(),
            n == count_status(es.take(i as int), st),
            n <= i,
        decreases entries.len() - i,
    {
        proof {
            assert(es.take(i + 1).drop_last() =~= es.take(i as int));
        }
        if entries[i].status == st {
            n = n + 1;
        }
        i = i + 1;
    }
    assert(es.take(i as int) =~= es);
    n
}

proof fn lemma_pairs_view_index(v: Seq<(String, String)>, i: int)
    requires
        0 <= i < v.len(),
    ensures
        pairs_view(v)[i] == (v[i].0@, v[i].1@),
{
}

/// The first phase does not depend on the stage it is entered from.
proof fn lemma_scan_from_any_stage(x: RunView, y: RunView, i: int)
    requires
        at_stage(x, StageView::WriteLast) == at_stage(y, StageView::WriteLast),
    ensures
        scan_from(x, i) == scan_from(y, i),
    decreases x.pairs.len() - i,
{
    assert(x.pairs == y.pairs && x.entries == y.entries && x.phase1_ok == y.phase1_ok);
    if 0 <= i < x.pairs.len() && !x.phase1_ok {
        let x1 = with_entries(
            x,
            mark_entry(x.entries, x.pairs[i].0, EntryStatus::Failed, Some(MSG_NOT_RUN@)),
        );
        let y1 = with_entries(
            y,
            mark_entry(y.entries, y.pairs[i].0, EntryStatus::Failed, Some(MSG_NOT_RUN@)),
        );
        lemma_scan_from_any_stage(x1, y1, i + 1);
    }
}

pub(crate) proof fn lemma_restore_from_any_stage(x: RunView, y: RunView, i: int, e: Seq<char>, k: int)
    requires
        at_stage(x, StageView::WriteLast) == at_stage(y, StageView::WriteLast),
        0 <= i < x.pairs.len(),
    ensures
        restore_from(x, i, e, k) == restore_from(y, i, e, k),
{
    if k <= 0 {
        let es1 = mark_entry(x.entries, x.pairs[i].0, EntryStatus::Failed, Some(e));
        let es2 = mark_all_failed(
            es1,
            x.staged.map_values(|t: StagedView| t.old_name),
            MSG_ROLLED_BACK@,
        );
        lemma_scan_from_any_stage(
            RunView { entries: es2, staged: Seq::empty(), ..x },
            RunView { entries: es2, staged: Seq::empty(), ..y },
            i + 1,
        );
    }
}

fn enter_commit(
    pairs: Vec<(String, String)>,
    ledger: Ledger,
    staged: Vec<StagedRename>,
    phase1_ok: bool,
    ledger_path: String,
    j: usize,
) -> (r: RenameRun)
    ensures
        r@ == commit_from(
            parts_view(pairs@, ledger, staged@, phase1_ok, StageView::WriteLast, ledger_path@),
            j as int,
        ),
{
    let stage = if j < staged.len() {
        Stage::Commit { index: j }
    } else {
        Stage::WriteLast
    };
    RenameRun { pairs, ledger, staged, phase1_ok, stage, ledger_path }
}

fn enter_scan(
    pairs: Vec<(String, String)>,
    ledger: Ledger,
    staged: Vec<StagedRename>,
    phase1_ok: bool,
    ledger_path: String,
    i: usize,
) -> (r: RenameRun)
    requires
        i <= pairs@.len(),
    ensures
        r@ == scan_from(
            parts_view(pairs@, ledger, staged@, phase1_ok, StageView::WriteLast, ledger_path@),
            i as int,
        ),
{
    let mut ledger = ledger;
    let mut i = i;
    let ghost target = scan_from(
        parts_view(pairs@, ledger, staged@, phase1_ok, StageView::WriteLast, ledger_path@),
        i as int,
    );
    while i < pairs.len() && !phase1_ok
        invariant
            i <= pairs@.len(),
            scan_from(
                parts_view(pairs@, ledger, staged@, phase1_ok, StageView::WriteLast, ledger_path@),
                i as int,
            ) == target,
        decreases pairs.len() - i,
    {
        let ghost before = parts_view(
            pairs@,
            ledger,
            staged@,
            phase1_ok,
            StageView::WriteLast,
            ledger_path@,
        );
        proof {
            lemma_pairs_view_index(pairs@, i as int);
        }
        mark_failed(&mut ledger, &pairs[i].0, MSG_NOT_RUN);
        proof {
            let after = parts_view(
                pairs@,
                ledger,
                staged@,
                phase1_ok,
                StageView::WriteLast,
                ledger_path@,
            );
            assert(after == with_entries(
                before,
                mark_entry(before.entries, before.pairs[i as int].0, EntryStatus::Failed, Some(MSG_NOT_RUN@)),
            ));
        }
        i = i + 1;
    }
    if i < pairs.len() {
        RenameRun { pairs, ledger, staged, phase1_ok, stage: Stage::Check { index: i }, ledger_path }
    } else {
        enter_commit(pairs, ledger, staged, phase1_ok, ledger_path, 0)
    }
}

fn enter_restore(
    pairs: Vec<(String, String)>,
    ledger: Ledger,
    staged: Vec<StagedRename>,
    phase1_ok: bool,
    ledger_path: String,
    i: usize,
    error: String,
    k: usize,
) -> (r: RenameRun)
    requires
        i < pairs@.len(),
        k <= staged@.len(),
    ensures
        r@ == restore_from(
            parts_view(pairs@, ledger, staged@, phase1_ok, StageView::WriteLast, ledger_path@),
            i as int,
            error@,
            k as int,
        ),
{
    if k > 0 {
        return RenameRun {
            pairs,
            ledger,
            staged,
            phase1_ok,
            stage: Stage::Restore { index: i, error, left: k },
            ledger_path,
        };
    }
    let ghost s0 = parts_view(pairs@, ledger, staged@, phase1_ok, StageView::WriteLast, ledger_path@);
    let mut ledger = ledger;
    proof {
        lemma_pairs_view_index(pairs@, i as int);
    }
    mark_failed(&mut ledger, &pairs[i].0, error.as_str());
    let ghost es1 = entries_view(ledger.entries@);
    let ghost olds = s0.staged.map_values(|t: StagedView| t.old_name);
    let mut j: usize = 0;
    while j < staged.len()
        invariant
            s0.staged == staged_view(staged@),
            olds == s0.staged.map_values(|t: StagedView| t.old_name),
            j <= staged@.len(),
            entries_view(ledger.entries@) == mark_all_failed(es1, olds.take(j as int), MSG_ROLLED_BACK@),
            ledger.version == s0.version,
            ledger.root@ == s0.root,
            ledger.created_at@ == s0.created_at,
        decreases staged.len() - j,
    {
        proof {
            assert(olds.take(j + 1).drop_last() =~= olds.take(j as int));
            assert(olds.take(j + 1).last() == staged@[j as int].old_name@);
        }
        mark_failed(&mut ledger, &staged[j].old_name, MSG_ROLLED_BACK);
        j = j + 1;
    }
    assert(olds.take(j as int) =~= olds);
    let empty: Vec<StagedRename> = Vec::new();
    proof {
        let s1 = parts_view(pairs@, ledger, empty@, phase1_ok, StageView::WriteLast, ledger_path@);
        assert(staged_view(empty@) =~= Seq::<StagedView>::empty());
        assert(s1 == RunView { entries: entries_view(ledger.entries@), staged: Seq::empty(), ..s0 });
    }
    let n = pairs.len();
    assert(i < n);
    enter_scan(pairs, ledger, empty, phase1_ok, ledger_path, i + 1)
}

/// Starts a batch renaming each `pairs[i].0` to `pairs[i].1` in the data
/// directory `root`, in two phases (all to temporary names first, then all to
/// their new names); refused when there is nothing to rename. The run that comes
/// back is driven by its steps until it is finished.
pub fn apply_renames(root: &str, pairs: &[(String, String)]) -> (r: Result<RenameRun, RenameError>)
    ensures
        pairs@.len() == 0 <==> r is Err,
        r matches Err(e) ==> e is Empty,
        r matches Ok(run) ==> run@ == run_start(pairs_view(pairs@), root@, run@.created_at),
{
    if pairs.len() == 0 {
        return Err(RenameError::Empty);
    }
    let ledger = Ledger::new(root, pairs);
    let mut owned: Vec<(String, String)> = Vec::new();
    let mut i: usize = 0;
    while i < pairs.len()
        invariant
            i <= pairs@.len(),
            pairs_view(owned@) == pairs_view(pairs@).take(i as int),
            owned@.len() == i,
        decreases pairs.len() - i,
    {
        let p = (pairs[i].0.clone(), pairs[i].1.clone());
        let ghost before = owned@;
        owned.push(p);
        proof {
            assert(owned@ == before.push(p));
            let target = pairs_view(pairs@).take(i + 1);
            assert forall|k: int| 0 <= k < owned@.len() implies pairs_view(owned@)[k] == target[k] by {
                if k < i {
                    assert(owned@[k] == before[k]);
                    assert(pairs_view(before)[k] == pairs_view(pairs@).take(i as int)[k]);
                }
            }
            assert(pairs_view(owned@) =~= target);
        }
        i = i + 1;
    }
    assert(pairs_view(pairs@).take(i as int) =~= pairs_view(pairs@));
    let run = RenameRun {
        pairs: owned,
        ledger,
        staged: Vec::new(),
        phase1_ok: true,
        stage: Stage::WriteFirst,
        ledger_path: String::new(),
    };
    assert(staged_view(run.staged@) =~= Seq::<StagedView>::empty());
    Ok(run)
}

impl RenameRun {
    /// The step this run needs next.
    pub fn step(&self) -> (st: RenameStep)
        ensures
            st@ == run_step(self@),
    {
        proof {
            use_type_invariant(self);
        }
        match &self.stage {
            Stage::WriteFirst => RenameStep::WriteLedger,
            Stage::Check { index } => {
                proof {
                    lemma_pairs_view_index(self.pairs@, *index as int);
                }
                RenameStep::CheckSource { name: self.pairs[*index].0.clone() }
            },
            Stage::Temp { .. } => RenameStep::NeedTempName,
            Stage::Park { index, temp } => {
                proof {
                    lemma_pairs_view_index(self.pairs@, *index as int);
                }
                RenameStep::Move { from: self.pairs[*index].0.clone(), to: temp.clone() }
            },
            Stage::Restore { left, .. } => {
                let s = &self.staged[*left - 1];
                RenameStep::Move { from: s.temp_name.clone(), to: s.old_name.clone() }
            },
            Stage::Commit { index } => {
                let s = &self.staged[*index];
                RenameStep::Move { from: s.temp_name.clone(), to: s.new_name.clone() }
            },
            Stage::Revert { index, .. } => {
                let s = &self.staged[*index];
                RenameStep::Move { from: s.temp_name.clone(), to: s.old_name.clone() }
            },
            Stage::WriteLast => RenameStep::WriteLedger,
            Stage::Done { .. } => RenameStep::Finished,
        }
    }

    /// The ledger as it stands, to be written when the step asks for it.
    pub fn ledger(&self) -> (l: &Ledger)
        ensures
            entries_view(l.entries@) == self@.entries,
            l.version == self@.version,
            l.root@ == self@.root,
            l.created_at@ == self@.created_at,
    {
        &self.ledger
    }

    /// Moves the run on with the reply to its current step.
    pub fn advance(self, reply: RenameReply) -> (next: RenameRun)
        ensures
            next@ == run_next(self@, reply@),
    {
        proof {
            use_type_invariant(&self);
        }
        let ghost s = self@;
        let RenameRun { pairs, ledger, staged, phase1_ok, stage, ledger_path } = self;
        let mut ledger = ledger;
        let mut staged = staged;
        let n = pairs.len();
        let m = staged.len();
        match (stage, reply) {
            (Stage::WriteFirst, RenameReply::LedgerWritten(Ok(path))) => {
                proof {
                    lemma_scan_from_any_stage(
                        parts_view(pairs@, ledger, staged@, phase1_ok, StageView::WriteLast, path@),
                        RunView { ledger_path: path@, ..s },
                        0,
                    );
                }
                enter_scan(pairs, ledger, staged, phase1_ok, path, 0)
            },
            (Stage::WriteFirst, RenameReply::LedgerWritten(Err(e))) => {
                RenameRun { pairs, ledger, staged, phase1_ok, stage: Stage::Done { error: Some(e) }, ledger_path }
            },
            (Stage::Check { index }, RenameReply::SourceChecked(is_file)) => {
                if is_file {
                    RenameRun { pairs, ledger, staged, phase1_ok, stage: Stage::Temp { index }, ledger_path }
                } else {
                    proof {
                        lemma_pairs_view_index(pairs@, index as int);
                    }
                    mark_failed(&mut ledger, &pairs[index].0, MSG_SOURCE_GONE);
                    proof {
                        lemma_scan_from_any_stage(
                            parts_view(pairs@, ledger, staged@, phase1_ok, StageView::WriteLast, ledger_path@),
                            with_entries(
                                s,
                                mark_entry(
                                    s.entries,
                                    s.pairs[index as int].0,
                                    EntryStatus::Failed,
                                    Some(MSG_SOURCE_GONE@),
                                ),
                            ),
                            index + 1,
                        );
                    }
                    enter_scan(pairs, ledger, staged, phase1_ok, ledger_path, index + 1)
                }
            },
            (Stage::Temp { index }, RenameReply::TempName(temp)) => {
                RenameRun { pairs, ledger, staged, phase1_ok, stage: Stage::Park { index, temp }, ledger_path }
            },
            (Stage::Park { index, temp }, RenameReply::Moved(Ok(()))) => {
                proof {
                    lemma_pairs_view_index(pairs@, index as int);
                }
                let entry = StagedRename {
                    old_name: pairs[index].0.clone(),
                    new_name: pairs[index].1.clone(),
                    temp_name: temp,
                };
                let ghost before = staged@;
                staged.push(entry);
                assert(staged_view(staged@) =~= staged_view(before).push(entry@));
                proof {
                    lemma_scan_from_any_stage(
                        parts_view(pairs@, ledger, staged@, phase1_ok, StageView::WriteLast, ledger_path@),
                        RunView {
                            staged: s.staged.push(
                                StagedView {
                                    old_name: s.pairs[index as int].0,
                                    new_name: s.pairs[index as int].1,
                                    temp_name: entry@.temp_name,
                                },
                            ),
                            ..s
                        },
                        index + 1,
                    );
                }
                enter_scan(pairs, ledger, staged, phase1_ok, ledger_path, index + 1)
            },
            (Stage::Park { index, .. }, RenameReply::Moved(Err(e))) => {
                let k = staged.len();
                proof {
                    lemma_restore_from_any_stage(
                        parts_view(pairs@, ledger, staged@, false, StageView::WriteLast, ledger_path@),
                        RunView { phase1_ok: false, ..s },
                        index as int,
                        e@,
                        k as int,
                    );
                }
                enter_restore(pairs, ledger, staged, false, ledger_path, index, e, k)
            },
            (Stage::Restore { index, error, left }, RenameReply::Moved(_)) => {
                proof {
                    lemma_restore_from_any_stage(
                        parts_view(pairs@, ledger, staged@, phase1_ok, StageView::WriteLast, ledger_path@),
                        s,
                        index as int,
                        error@,
                        left - 1,
                    );
                }
                enter_restore(pairs, ledger, staged, phase1_ok, ledger_path, index, error, left - 1)
            },
            (Stage::Commit { index }, RenameReply::Moved(Ok(()))) => {
                mark_success(&mut ledger, &staged[index].old_name);
                enter_commit(pairs, ledger, staged, phase1_ok, ledger_path, index + 1)
            },
            (Stage::Commit { index }, RenameReply::Moved(Err(e))) => {
                RenameRun {
                    pairs,
                    ledger,
                    staged,
                    phase1_ok,
                    stage: Stage::Revert { index, error: e },
                    ledger_path,
                }
            },
            (Stage::Revert { index, error }, RenameReply::Moved(Ok(()))) => {
                mark_failed(&mut ledger, &staged[index].old_name, error.as_str());
                enter_commit(pairs, ledger, staged, phase1_ok, ledger_path, index + 1)
            },
            (Stage::Revert { index, error }, RenameReply::Moved(Err(back))) => {
                let mut msg = error;
                msg.append(MSG_CANNOT_RESTORE);
                msg.append(back.as_str());
                mark_failed(&mut ledger, &staged[index].old_name, msg.as_str());
                enter_commit(pairs, ledger, staged, phase1_ok, ledger_path, index + 1)
            },
            (Stage::WriteLast, RenameReply::LedgerWritten(Ok(_))) => {
                RenameRun { pairs, ledger, staged, phase1_ok, stage: Stage::Done { error: None }, ledger_path }
            },
            (Stage::WriteLast, RenameReply::LedgerWritten(Err(e))) => {
                RenameRun { pairs, ledger, staged, phase1_ok, stage: Stage::Done { error: Some(e) }, ledger_path }
            },
            (stage, _) => RenameRun { pairs, ledger, staged, phase1_ok, stage, ledger_path },
        }
    }

    /// The result of a finished run: the outcome, or the ledger error that ended
    /// it; `None` while the run is not over.
    pub fn into_outcome(self) -> (r: Option<Result<RenameOutcome, RenameError>>)
        ensures
            (self@.stage is Done) <==> (r is Some),
            (r matches Some(Ok(out)) ==> outcome_of(self@, out)),
            (r matches Some(Err(e)) ==> failed_with(self@, e)),
    {
        let RenameRun { pairs, ledger, staged, phase1_ok, stage, ledger_path } = self;
        match stage {
            Stage::Done { error: None } => {
                let success = count_entries(&ledger.entries, EntryStatus::Success);
                let failed = count_entries(&ledger.entries, EntryStatus::Failed);
                Some(Ok(RenameOutcome { ledger_path, ledger, success, failed }))
            },
            Stage::Done { error: Some(e) } => Some(Err(RenameError::Ledger(e))),
            _ => None,
        }
    }
}

/// The renames that undo the successful entries of a ledger: each new name back
/// to its current name, in ledger order.
pub open spec fn undo_pairs(es: Seq<EntryView>) -> Seq<(Seq<char>, Seq<char>)>
    decreases es.len(),
{
    if es.len() == 0 {
        Seq::empty()
    } else {
        let prev = undo_pairs(es.drop_last());
        if es.last().status == EntryStatus::Success {
            prev.push((es.last().new_name, es.last().old_name))
        } else {
            prev
        }
    }
}

/// The batch that rolls back `ledger`: its successful renames, reversed; refused
/// when it holds none.
pub fn rollback_pairs(ledger: &Ledger) -> (r: Result<Vec<(String, String)>, RenameError>)
    ensures
        r matches Ok(v) ==> pairs_view(v@) == undo_pairs(entries_view(ledger.entries@)) && v@.len() > 0,
        r matches Err(e) ==> e is Empty && undo_pairs(entries_view(ledger.entries@)).len() == 0,
{
    let ghost es = entries_view(ledger.entries@);
    let mut v: Vec<(String, String)> = Vec::new();
    let mut i: usize = 0;
    assert(pairs_view(v@) =~= Seq::<(Seq<char>, Seq<char>)>::empty());
    while i < ledger.entries.len()
        invariant
            es == entries_view(ledger.entries@),
            i <= ledger.entries@.len(),
            pairs_view(v@) == undo_pairs(es.take(i as int)),
        decreases ledger.entries.len() - i,
    {
        proof {
            assert(es.take(i + 1).drop_last() =~= es.take(i as int));
        }
        let e = &ledger.entries[i];
        if e.status == EntryStatus::Success {
            let pair = (e.new_name.clone(), e.old_name.clone());
            assert(pairs_view(v@.push(pair)) =~= pairs_view(v@).push((pair.0@, pair.1@)));
            v.push(pair);
        }
        i = i + 1;
    }
    assert(es.take(i as int) =~= es);
    if v.len() == 0 {
        return Err(RenameError::Empty);
    }
    Ok(v)
}

/// The name of the backup directory of a rollback: `rollback_` and the current
/// local time as `YYYYmmdd_HHMMSS`. Which time it is depends on the clock; what
/// is stated is the shape of the name, whose time stamp is what `stamp_of` reads.
pub fn rollback_dir_name() -> (name: String)
    ensures
        name@.len() >= ROLLBACK_PREFIX@.len(),
        name@.take(ROLLBACK_PREFIX@.len() as int) == ROLLBACK_PREFIX@,
        stamp_of(name@) == name@.skip(ROLLBACK_PREFIX@.len() as int),
        is_stamp_text(stamp_of(name@), compact_stamp_tail()),
{
    let now = local_now();
    let stamp = format_local(&now, BACKUP_STAMP_PATTERN);
    let mut name = String::from_str(ROLLBACK_PREFIX);
    proof {
        reveal_strlit("rollback_");
    }
    name.append(stamp.as_str());
    assert(name@.take(9) =~= ROLLBACK_PREFIX@);
    assert(name@.skip(9) =~= stamp@);
    name
}

/// Whether `c` is a lowercase hexadecimal digit.
pub open spec fn is_lower_hex(c: char) -> bool {
    ('0' <= c <= '9') || ('a' <= c <= 'f')
}

/// `uuid::Uuid::new_v4()` written with `simple()`: a random version-4 UUID as
/// its 32 lowercase hexadecimal digits (the crate formats `Simple` through
/// `LowerHex`). Nothing more is claimed: the digits are random.
#[verifier::external_body]
fn random_uuid_hex() -> (s: String)
    ensures
        s@.len() == 32,
        forall|i: int| 0 <= i < 32 ==> is_lower_hex(#[trigger] s@[i]),
{
    uuid::Uuid::new_v4().simple().to_string()
}

/// A candidate temporary name: a hidden name made of a fixed prefix and a random
/// UUID. The caller checks that it is free before it is used.
pub fn temp_name_candidate() -> (t: String)
    ensures
        t@.len() == TEMP_PREFIX@.len() + 32,
        t@.subrange(0, TEMP_PREFIX@.len() as int) == TEMP_PREFIX@,
        forall|i: int|
            TEMP_PREFIX@.len() <= i < t@.len() ==> is_lower_hex(#[trigger] t@[i]),
{
    let hex = random_uuid_hex();
    let mut t = String::from_str(TEMP_PREFIX);
    t.append(hex.as_str());
    assert(t@.subrange(0, TEMP_PREFIX@.len() as int) =~= TEMP_PREFIX@);
    assert forall|i: int| TEMP_PREFIX@.len() <= i < t@.len() implies is_lower_hex(#[trigger] t@[i]) by {
        assert(t@[i] == hex@[i - TEMP_PREFIX@.len()]);
    }
    t
}

} // verus!
