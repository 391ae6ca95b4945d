//! The preview of a batch: what each row of the mapping table will do.

use vstd::prelude::*;

use crate::names::check_filename;
pub use crate::names::validate_filename;
use crate::scan::{entry_names, FileEntry};
use crate::strs::{contains_string, join, join_strings, strings_view};
use crate::text::{trim, trim_str};

verus! {

/// Header of the column that holds the current file names.
pub const COL_OLD: &'static str = "当前文件名称";

/// Header of the column that holds the new file names.
pub const COL_NEW: &'static str = "新文件名称";

pub const MSG_SKIP_EMPTY: &'static str = "新文件名称为空，跳过";

pub const MSG_SKIP_SAME: &'static str = "新旧名称相同，跳过";

pub const MSG_DUPLICATE_NEW: &'static str = "存在重复的新文件名称，整批拒绝执行: ";

pub const DUPLICATE_SEPARATOR: &'static str = "、";

pub const MSG_SOURCE_MISSING: &'static str = "当前文件在目录中不存在";

pub const MSG_TARGET_EXISTS: &'static str = "目标文件名已存在，拒绝覆盖";

/// What one row of the mapping table will do.
#[derive(Debug, Clone, PartialEq, Eq)]
pub enum RowAction {
    Skip { old_name: String, reason: String },
    Rename { old_name: String, new_name: String },
    Reject { old_name: String, new_name: String, reason: String },
}

/// A row action with its strings taken as character sequences.
pub enum ActionView {
    Skip { old_name: Seq<char>, reason: Seq<char> },
    Rename { old_name: Seq<char>, new_name: Seq<char> },
    Reject { old_name: Seq<char>, new_name: Seq<char>, reason: Seq<char> },
}

impl View for RowAction {
    type V = ActionView;

    open spec fn view(&self) -> ActionView {
        match self {
            RowAction::Skip { old_name, reason } => ActionView::Skip {
                old_name: old_name@,
                reason: reason@,
            },
            RowAction::Rename { old_name, new_name } => ActionView::Rename {
                old_name: old_name@,
                new_name: new_name@,
            },
            RowAction::Reject { old_name, new_name, reason } => ActionView::Reject {
                old_name: old_name@,
                new_name: new_name@,
                reason: reason@,
            },
        }
    }
}

/// The checked batch: one action per non-empty row, and an error that blocks the
/// whole batch (for instance when two rows ask for the same new name).
#[derive(Debug, Clone)]
pub struct Preview {
    pub actions: Vec<RowAction>,
    pub blocking_error: Option<String>,
}

pub struct PreviewView {
    pub actions: Seq<ActionView>,
    pub blocking_error: Option<Seq<char>>,
}

pub open spec fn actions_view(v: Seq<RowAction>) -> Seq<ActionView> {
    v.map_values(|a: RowAction| a@)
}

impl View for Preview {
    type V = PreviewView;

    open spec fn view(&self) -> PreviewView {
        PreviewView {
            actions: actions_view(self.actions@),
            blocking_error: match self.blocking_error {
                Some(e) => Some(e@),
                None => None,
            },
        }
    }
}

/// The rows of a mapping table, as character sequences.
pub open spec fn rows_view(rows: Seq<(String, String)>) -> Seq<(Seq<char>, Seq<char>)> {
    rows.map_values(|r: (String, String)| (r.0@, r.1@))
}

/// What a single row asks for, before the rows are compared with each other and
/// with the directory; `None` for a row whose current name is blank.
pub open spec fn classify_row(old_raw: Seq<char>, new_raw: Seq<char>) -> Option<ActionView> {
    let old_name = trim(old_raw);
    let new_name = trim(new_raw);
    if old_name.len() == 0 {
        None
    } else if new_name.len() == 0 {
        Some(ActionView::Skip { old_name, reason: MSG_SKIP_EMPTY@ })
    } else if new_name == old_name {
        Some(ActionView::Skip { old_name, reason: MSG_SKIP_SAME@ })
    } else {
        match check_filename(new_name) {
            Err(reason) => Some(ActionView::Reject { old_name, new_name, reason }),
            Ok(()) => Some(ActionView::Rename { old_name, new_name }),
        }
    }
}

/// The actions of the rows taken one by one, each with the index of its row.
pub open spec fn first_pass(rows: Seq<(Seq<char>, Seq<char>)>) -> Seq<(ActionView, int)>
    decreases rows.len(),
{
    if rows.len() == 0 {
        Seq::empty()
    } else {
        let prev = first_pass(rows.drop_last());
        match classify_row(rows.last().0, rows.last().1) {
            Some(a) => prev.push((a, rows.len() - 1)),
            None => prev,
        }
    }
}

/// The new names of the renames among `acts`, in order.
pub open spec fn rename_targets(acts: Seq<ActionView>) -> Seq<Seq<char>>
    decreases acts.len(),
{
    if acts.len() == 0 {
        Seq::empty()
    } else {
        let prev = rename_targets(acts.drop_last());
        match acts.last() {
            ActionView::Rename { new_name, .. } => prev.push(new_name),
            _ => prev,
        }
    }
}

/// The current names of the renames among `acts`, in order.
pub open spec fn rename_sources(acts: Seq<ActionView>) -> Seq<Seq<char>>
    decreases acts.len(),
{
    if acts.len() == 0 {
        Seq::empty()
    } else {
        let prev = rename_sources(acts.drop_last());
        match acts.last() {
            ActionView::Rename { old_name, .. } => prev.push(old_name),
            _ => prev,
        }
    }
}

/// The names that occur more than once in `names`, each once, in the order in
/// which they first repeat.
pub open spec fn repeated_names(names: Seq<Seq<char>>) -> Seq<Seq<char>>
    decreases names.len(),
{
    if names.len() == 0 {
        Seq::empty()
    } else {
        let prev = repeated_names(names.drop_last());
        let x = names.last();
        if names.drop_last().contains(x) && !prev.contains(x) {
            prev.push(x)
        } else {
            prev
        }
    }
}

/// A planned rename checked against the directory: its current file must be
/// there, and its new name must be free or be the current name of a file that is
/// renamed too (one of `moving`).
pub open spec fn settle_action(
    a: ActionView,
    moving: Seq<Seq<char>>,
    on_disk: Seq<Seq<char>>,
    target_exists: bool,
) -> ActionView {
    match a {
        ActionView::Rename { old_name, new_name } => if !on_disk.contains(old_name) {
            ActionView::Reject { old_name, new_name, reason: MSG_SOURCE_MISSING@ }
        } else if target_exists && !moving.contains(new_name) {
            ActionView::Reject { old_name, new_name, reason: MSG_TARGET_EXISTS@ }
        } else {
            a
        },
        _ => a,
    }
}

/// The rows that a list of first-pass actions come from.
pub open spec fn action_rows(fp: Seq<(ActionView, int)>) -> Seq<int> {
    fp.map_values(|p: (ActionView, int)| p.1)
}

/// One round of checking against the directory: every rename of `acts` is
/// settled against the current names of the renames of `acts`. `rows_of[k]` is
/// the row of action `k`, and `target_exists[r]` tells whether the new name of
/// row `r` names an existing entry of the directory.
pub open spec fn settle_round(
    acts: Seq<ActionView>,
    rows_of: Seq<int>,
    on_disk: Seq<Seq<char>>,
    target_exists: Seq<bool>,
) -> Seq<ActionView> {
    Seq::new(
        acts.len(),
        |k: int| settle_action(acts[k], rename_sources(acts), on_disk, target_exists[rows_of[k]]),
    )
}

/// Rounds of checking, at most `fuel` of them, until a round changes nothing. A
/// rename that is refused no longer frees its current name, so a rename into that
/// name is refused in the next round.
pub open spec fn settle_rounds(
    acts: Seq<ActionView>,
    rows_of: Seq<int>,
    on_disk: Seq<Seq<char>>,
    target_exists: Seq<bool>,
    fuel: nat,
) -> Seq<ActionView>
    decreases fuel,
{
    let next = settle_round(acts, rows_of, on_disk, target_exists);
    if fuel == 0 || next == acts {
        acts
    } else {
        settle_rounds(next, rows_of, on_disk, target_exists, (fuel - 1) as nat)
    }
}

/// The preview of a batch. `target_exists[i]` tells whether the trimmed new name
/// of row `i` names an existing entry of the directory.
pub open spec fn preview_of(
    rows: Seq<(Seq<char>, Seq<char>)>,
    on_disk: Seq<Seq<char>>,
    target_exists: Seq<bool>,
) -> PreviewView {
    let fp = first_pass(rows);
    let acts = fp.map_values(|p: (ActionView, int)| p.0);
    let dups = repeated_names(rename_targets(acts));
    if dups.len() > 0 {
        PreviewView {
            actions: acts,
            blocking_error: Some(MSG_DUPLICATE_NEW@ + join(dups, DUPLICATE_SEPARATOR@)),
        }
    } else {
        PreviewView {
            actions: settle_rounds(acts, action_rows(fp), on_disk, target_exists, acts.len()),
            blocking_error: None,
        }
    }
}

/// `b` is `a` with some renames turned into refusals.
pub open spec fn narrower(b: Seq<ActionView>, a: Seq<ActionView>) -> bool {
    &&& b.len() == a.len()
    &&& forall|k: int|
        0 <= k < a.len() ==> #[trigger] b[k] == a[k] || (a[k] is Rename && b[k] is Reject)
}

proof fn lemma_round_narrower(
    acts: Seq<ActionView>,
    rows_of: Seq<int>,
    on_disk: Seq<Seq<char>>,
    target_exists: Seq<bool>,
)
    ensures
        narrower(settle_round(acts, rows_of, on_disk, target_exists), acts),
{
}

proof fn lemma_count_le_len(acts: Seq<ActionView>)
    ensures
        count_renames(acts) <= acts.len(),
    decreases acts.len(),
{
    if acts.len() > 0 {
        lemma_count_le_len(acts.drop_last());
    }
}

proof fn lemma_narrower_count(b: Seq<ActionView>, a: Seq<ActionView>)
    requires
        narrower(b, a),
    ensures
        count_renames(b) <= count_renames(a),
        b != a ==> count_renames(b) < count_renames(a),
    decreases a.len(),
{
    if a.len() > 0 {
        let bp = b.drop_last();
        let ap = a.drop_last();
        assert forall|k: int| 0 <= k < ap.len() implies #[trigger] bp[k] == ap[k] || (ap[k] is Rename
            && bp[k] is Reject) by {
            assert(bp[k] == b[k] && ap[k] == a[k]);
        }
        lemma_narrower_count(bp, ap);
        assert(b.last() == b[b.len() - 1] && a.last() == a[a.len() - 1]);
        if b != a && bp == ap && b.last() == a.last() {
            assert forall|k: int| 0 <= k < a.len() implies b[k] == a[k] by {
                if k < a.len() - 1 {
                    assert(bp[k] == ap[k]);
                }
            }
            assert(b =~= a);
        }
    } else {
        assert(b =~= a);
    }
}

proof fn lemma_narrower_trans(c: Seq<ActionView>, b: Seq<ActionView>, a: Seq<ActionView>)
    requires
        narrower(c, b),
        narrower(b, a),
    ensures
        narrower(c, a),
{
    assert forall|k: int| 0 <= k < a.len() implies #[trigger] c[k] == a[k] || (a[k] is Rename
        && c[k] is Reject) by {
        assert(c[k] == b[k] || (b[k] is Rename && c[k] is Reject));
        assert(b[k] == a[k] || (a[k] is Rename && b[k] is Reject));
    }
}

/// Enough rounds reach a state that one more round leaves as it is, and that
/// state only refuses renames of the start.
proof fn lemma_settle_rounds(
    acts: Seq<ActionView>,
    rows_of: Seq<int>,
    on_disk: Seq<Seq<char>>,
    target_exists: Seq<bool>,
    fuel: nat,
)
    requires
        count_renames(acts) <= fuel,
    ensures
        ({
            let f = settle_rounds(acts, rows_of, on_disk, target_exists, fuel);
            &&& settle_round(f, rows_of, on_disk, target_exists) == f
            &&& narrower(f, acts)
        }),
    decreases fuel,
{
    let next = settle_round(acts, rows_of, on_disk, target_exists);
    lemma_round_narrower(acts, rows_of, on_disk, target_exists);
    lemma_narrower_count(next, acts);
    if fuel == 0 || next == acts {
        if fuel == 0 && next != acts {
            assert(false);
        }
        assert(narrower(acts, acts));
    } else {
        lemma_settle_rounds(next, rows_of, on_disk, target_exists, (fuel - 1) as nat);
        lemma_narrower_trans(
            settle_rounds(next, rows_of, on_disk, target_exists, (fuel - 1) as nat),
            next,
            acts,
        );
    }
}

/// Row indices as integers.
pub open spec fn usize_ints(v: Seq<usize>) -> Seq<int> {
    v.map_values(|r: usize| r as int)
}

fn classify(old_raw: &String, new_raw: &String) -> (r: Option<RowAction>)
    ensures
        match (r, classify_row(old_raw@, new_raw@)) {
            (Some(a), Some(b)) => a@ == b,
            (None, None) => true,
            _ => false,
        },
{
    let old_name = trim_str(old_raw.as_str());
    let new_name = trim_str(new_raw.as_str());
    if old_name.as_str().is_empty() {
        return None;
    }
    if new_name.as_str().is_empty() {
        return Some(RowAction::Skip { old_name, reason: String::from_str(MSG_SKIP_EMPTY) });
    }
    if new_name == old_name {
        return Some(RowAction::Skip { old_name, reason: String::from_str(MSG_SKIP_SAME) });
    }
    match validate_filename(new_name.as_str()) {
        Err(reason) => Some(RowAction::Reject { old_name, new_name, reason }),
        Ok(()) => Some(RowAction::Rename { old_name, new_name }),
    }
}

fn file_listed(files: &[FileEntry], name: &String) -> (b: bool)
    ensures
        b == entry_names(files@).contains(name@),
{
    let mut i: usize = 0;
    while i < files.len()
        invariant
            i <= files@.len(),
            forall|j: int| 0 <= j < i ==> files@[j].name@ != name@,
        decreases files.len() - i,
    {
        if files[i].name == *name {
            assert(entry_names(files@)[i as int] == name@);
            return true;
        }
        i = i + 1;
    }
    assert(!entry_names(files@).contains(name@)) by {
        if entry_names(files@).contains(name@) {
            let j = choose|j: int|
                0 <= j < entry_names(files@).len() && entry_names(files@)[j] == name@;
            assert(files@[j].name@ == name@);
        }
    }
    false
}

proof fn lemma_actions_view_push(v: Seq<RowAction>, a: RowAction)
    ensures
        actions_view(v.push(a)) == actions_view(v).push(a@),
{
    assert(actions_view(v.push(a)) =~= actions_view(v).push(a@));
}

proof fn lemma_strings_view_push(v: Seq<String>, s: String)
    ensures
        strings_view(v.push(s)) == strings_view(v).push(s@),
{
    assert(strings_view(v.push(s)) =~= strings_view(v).push(s@));
}

proof fn lemma_push_drop_last<A>(s: Seq<A>, a: A)
    ensures
        s.push(a).drop_last() == s,
        s.push(a).last() == a,
{
    assert(s.push(a).drop_last() =~= s);
}

/// The current names of the renames among `acts`, in order.
fn sources_of(acts: &Vec<RowAction>) -> (v: Vec<String>)
    ensures
        strings_view(v@) == rename_sources(actions_view(acts@)),
{
    let ghost av = actions_view(acts@);
    let mut v: Vec<String> = Vec::new();
    let mut i: usize = 0;
    assert(strings_view(v@) =~= Seq::<Seq<char>>::empty());
    while i < acts.len()
        invariant
            av == actions_view(acts@),
            i <= acts@.len(),
            strings_view(v@) == rename_sources(av.take(i as int)),
        decreases acts.len() - i,
    {
        proof {
            assert(av.take(i + 1).drop_last() =~= av.take(i as int));
            assert(av.take(i + 1).last() == acts@[i as int]@);
        }
        match &acts[i] {
            RowAction::Rename { old_name, .. } => {
                let o = old_name.clone();
                proof {
                    lemma_strings_view_push(v@, o);
                }
                v.push(o);
            },
            _ => {},
        }
        i = i + 1;
    }
    assert(av.take(i as int) =~= av);
    v
}

/// One round of checking against the directory (`settle_round`), and whether it
/// refused any rename.
fn settle_once(
    cur: &Vec<RowAction>,
    row_of: &Vec<usize>,
    disk_files: &[FileEntry],
    target_exists: &[bool],
) -> (r: (Vec<RowAction>, bool))
    requires
        row_of@.len() == cur@.len(),
        forall|j: int| 0 <= j < row_of@.len() ==> (#[trigger] row_of@[j]) < target_exists@.len(),
    ensures
        actions_view(r.0@) == settle_round(
            actions_view(cur@),
            usize_ints(row_of@),
            entry_names(disk_files@),
            target_exists@,
        ),
        r.1 <==> actions_view(r.0@) != actions_view(cur@),
{
    let sources = sources_of(cur);
    let ghost acts = actions_view(cur@);
    let ghost target = settle_round(
        acts,
        usize_ints(row_of@),
        entry_names(disk_files@),
        target_exists@,
    );
    let mut next: Vec<RowAction> = Vec::new();
    let mut changed = false;
    let mut k: usize = 0;
    while k < cur.len()
        invariant
            acts == actions_view(cur@),
            target == settle_round(
                acts,
                usize_ints(row_of@),
                entry_names(disk_files@),
                target_exists@,
            ),
            row_of@.len() == cur@.len(),
            forall|j: int| 0 <= j < row_of@.len() ==> (#[trigger] row_of@[j]) < target_exists@.len(),
            strings_view(sources@) == rename_sources(acts),
            k <= cur@.len(),
            next@.len() == k,
            forall|j: int| 0 <= j < k ==> (#[trigger] next@[j])@ == target[j],
            changed <==> exists|j: int| 0 <= j < k && (#[trigger] next@[j])@ != cur@[j]@,
        decreases cur.len() - k,
    {
        assert(acts[k as int] == cur@[k as int]@);
        assert(usize_ints(row_of@)[k as int] == row_of@[k as int] as int);
        let (a, refused) = match &cur[k] {
            RowAction::Rename { old_name, new_name } => {
                if !file_listed(disk_files, old_name) {
                    (
                        RowAction::Reject {
                            old_name: old_name.clone(),
                            new_name: new_name.clone(),
                            reason: String::from_str(MSG_SOURCE_MISSING),
                        },
                        true,
                    )
                } else if target_exists[row_of[k]] && !contains_string(&sources, new_name) {
                    (
                        RowAction::Reject {
                            old_name: old_name.clone(),
                            new_name: new_name.clone(),
                            reason: String::from_str(MSG_TARGET_EXISTS),
                        },
                        true,
                    )
                } else {
                    (RowAction::Rename { old_name: old_name.clone(), new_name: new_name.clone() }, false)
                }
            },
            RowAction::Skip { old_name, reason } => (
                RowAction::Skip { old_name: old_name.clone(), reason: reason.clone() },
                false,
            ),
            RowAction::Reject { old_name, new_name, reason } => (
                RowAction::Reject {
                    old_name: old_name.clone(),
                    new_name: new_name.clone(),
                    reason: reason.clone(),
                },
                false,
            ),
        };
        assert(a@ == target[k as int]);
        assert(refused <==> a@ != cur@[k as int]@);
        let ghost before = next@;
        next.push(a);
        proof {
            assert(next@[k as int] == a);
            assert forall|j: int| 0 <= j < k implies next@[j] == before[j] by {}
        }
        changed = changed || refused;
        k = k + 1;
    }
    proof {
        assert(actions_view(next@) =~= target);
        if changed {
            let j = choose|j: int| 0 <= j < k && (#[trigger] next@[j])@ != cur@[j]@;
            assert(actions_view(next@)[j] != acts[j]);
        } else {
            assert forall|j: int| 0 <= j < next@.len() implies actions_view(next@)[j] == acts[j] by {
                assert(!((next@[j])@ != cur@[j]@));
            }
            assert(actions_view(next@) =~= acts);
        }
    }
    (next, changed)
}

/// Decides what each row of a mapping table will do.
///
/// `disk_files` are the files found in the data directory and `target_exists[i]`
/// tells whether the trimmed new name of row `i` names an existing entry there.
pub fn build_preview(
    rows: &[(String, String)],
    disk_files: &[FileEntry],
    target_exists: &[bool],
) -> (p: Preview)
    requires
        target_exists@.len() == rows@.len(),
    ensures
        p@ == preview_of(rows_view(rows@), entry_names(disk_files@), target_exists@),
{
    let ghost rv = rows_view(rows@);
    let mut actions: Vec<RowAction> = Vec::new();
    let mut row_of: Vec<usize> = Vec::new();
    let mut targets: Vec<String> = Vec::new();
    let mut sources: Vec<String> = Vec::new();
    let mut dups: Vec<String> = Vec::new();
    let mut i: usize = 0;
    assert(rv.take(0) =~= Seq::<(Seq<char>, Seq<char>)>::empty());
    assert(actions_view(actions@) =~= Seq::<ActionView>::empty());
    assert(strings_view(targets@) =~= Seq::<Seq<char>>::empty());
    assert(strings_view(sources@) =~= Seq::<Seq<char>>::empty());
    assert(strings_view(dups@) =~= Seq::<Seq<char>>::empty());
    while i < rows.len()
        invariant
            rv == rows_view(rows@),
            i <= rows@.len(),
            actions@.len() == first_pass(rv.take(i as int)).len(),
            row_of@.len() == actions@.len(),
            forall|k: int|
                0 <= k < actions@.len() ==> (#[trigger] actions@[k])@ == first_pass(
                    rv.take(i as int),
                )[k].0,
            forall|k: int|
                0 <= k < row_of@.len() ==> (#[trigger] row_of@[k]) as int == first_pass(
                    rv.take(i as int),
                )[k].1 && row_of@[k] < i,
            strings_view(targets@) == rename_targets(actions_view(actions@)),
            strings_view(sources@) == rename_sources(actions_view(actions@)),
            strings_view(dups@) == repeated_names(rename_targets(actions_view(actions@))),
        decreases rows.len() - i,
    {
        let row = &rows[i];
        let ghost prev_fp = first_pass(rv.take(i as int));
        let ghost prev_acts = actions_view(actions@);
        proof {
            let t = rv.take(i + 1);
            assert(t.drop_last() =~= rv.take(i as int));
            assert(t.last() == (row.0@, row.1@));
        }
        match classify(&row.0, &row.1) {
            Some(a) => {
                let ghost av = a@;
                proof {
                    lemma_actions_view_push(actions@, a);
                    lemma_push_drop_last(prev_acts, av);
                }
                match &a {
                    RowAction::Rename { old_name, new_name } => {
                        let t = new_name.clone();
                        let o = old_name.clone();
                        let seen = contains_string(&targets, &t);
                        let listed = contains_string(&dups, &t);
                        proof {
                            lemma_push_drop_last(strings_view(targets@), t@);
                        }
                        if seen && !listed {
                            proof {
                                lemma_strings_view_push(dups@, t);
                            }
                            dups.push(t.clone());
                        }
                        proof {
                            lemma_strings_view_push(targets@, t);
                            lemma_strings_view_push(sources@, o);
                        }
                        targets.push(t);
                        sources.push(o);
                    },
                    _ => {},
                }
                actions.push(a);
                row_of.push(i);
                assert(first_pass(rv.take(i + 1)) == prev_fp.push((av, i as int)));
            },
            None => {
                assert(first_pass(rv.take(i + 1)) == prev_fp);
            },
        }
        i = i + 1;
    }
    assert(rv.take(rows@.len() as int) =~= rv);
    let ghost fp = first_pass(rv);
    let ghost acts = fp.map_values(|p: (ActionView, int)| p.0);
    assert(actions_view(actions@) =~= acts);
    if dups.len() > 0 {
        let mut msg = String::from_str(MSG_DUPLICATE_NEW);
        let listed = join_strings(&dups, DUPLICATE_SEPARATOR);
        msg.append(listed.as_str());
        return Preview { actions, blocking_error: Some(msg) };
    }
    assert(strings_view(dups@) =~= Seq::<Seq<char>>::empty());
    let ghost ro = action_rows(fp);
    let ghost od = entry_names(disk_files@);
    let ghost goal = settle_rounds(acts, ro, od, target_exists@, acts.len());
    proof {
        assert(usize_ints(row_of@) =~= ro);
        lemma_count_le_len(acts);
    }
    let mut cur = actions;
    let ghost mut fuel: nat = acts.len();
    loop
        invariant
            ro == action_rows(fp),
            usize_ints(row_of@) == ro,
            cur@.len() == row_of@.len(),
            forall|j: int| 0 <= j < row_of@.len() ==> (#[trigger] row_of@[j]) < target_exists@.len(),
            goal == settle_rounds(actions_view(cur@), ro, od, target_exists@, fuel),
            count_renames(actions_view(cur@)) <= fuel,
            od == entry_names(disk_files@),
        ensures
            goal == actions_view(cur@),
        decreases count_renames(actions_view(cur@)),
    {
        let (next, changed) = settle_once(&cur, &row_of, disk_files, target_exists);
        proof {
            lemma_round_narrower(actions_view(cur@), ro, od, target_exists@);
            lemma_narrower_count(actions_view(next@), actions_view(cur@));
        }
        if !changed {
            break;
        }
        proof {
            fuel = (fuel - 1) as nat;
        }
        cur = next;
    }
    let p = Preview { actions: cur, blocking_error: None };
    assert(p@.actions =~= preview_of(rv, entry_names(disk_files@), target_exists@).actions);
    p
}

/// The rows of a mapping table read the other way round: each new name back to
/// its current name.
pub open spec fn swapped_rows(rows: Seq<(Seq<char>, Seq<char>)>) -> Seq<(Seq<char>, Seq<char>)> {
    rows.map_values(|r: (Seq<char>, Seq<char>)| (r.1, r.0))
}

/// The preview of undoing a mapping table that was carried out: each row asks
/// for its new name to become its current name again, and is checked as
/// `build_preview` checks a row. `target_exists[i]` tells whether the trimmed
/// current name of row `i` names an existing entry of the data directory.
pub fn build_restore_preview(
    rows: &[(String, String)],
    disk_files: &[FileEntry],
    target_exists: &[bool],
) -> (p: Preview)
    requires
        target_exists@.len() == rows@.len(),
    ensures
        p@ == preview_of(swapped_rows(rows_view(rows@)), entry_names(disk_files@), target_exists@),
{
    let ghost target = swapped_rows(rows_view(rows@));
    let mut swapped: Vec<(String, String)> = Vec::new();
    let mut i: usize = 0;
    while i < rows.len()
        invariant
            target == swapped_rows(rows_view(rows@)),
            i <= rows@.len(),
            rows_view(swapped@) == target.take(i as int),
            swapped@.len() == i,
        decreases rows.len() - i,
    {
        let pair = (rows[i].1.clone(), rows[i].0.clone());
        proof {
            let next = swapped@.push(pair);
            assert forall|k: int| 0 <= k <= i implies #[trigger] rows_view(next)[k] == target.take(
                i + 1,
            )[k] by {
                if k < i {
                    assert(next[k] == swapped@[k]);
                    assert(rows_view(swapped@)[k] == target.take(i as int)[k]);
                } else {
                    assert(rows_view(rows@)[k] == (rows@[k].0@, rows@[k].1@));
                }
            }
            assert(rows_view(next) =~= target.take(i + 1));
        }
        swapped.push(pair);
        i = i + 1;
    }
    assert(target.take(i as int) =~= target);
    build_preview(&swapped, disk_files, target_exists)
}

/// The number of renames among `acts`.
pub open spec fn count_renames(acts: Seq<ActionView>) -> nat
    decreases acts.len(),
{
    if acts.len() == 0 {
        0
    } else {
        count_renames(acts.drop_last()) + if acts.last() is Rename {
            1nat
        } else {
            0nat
        }
    }
}

/// The number of skipped rows among `acts`.
pub open spec fn count_skips(acts: Seq<ActionView>) -> nat
    decreases acts.len(),
{
    if acts.len() == 0 {
        0
    } else {
        count_skips(acts.drop_last()) + if acts.last() is Skip {
            1nat
        } else {
            0nat
        }
    }
}

/// The number of rejected rows among `acts`.
pub open spec fn count_rejects(acts: Seq<ActionView>) -> nat
    decreases acts.len(),
{
    if acts.len() == 0 {
        0
    } else {
        count_rejects(acts.drop_last()) + if acts.last() is Reject {
            1nat
        } else {
            0nat
        }
    }
}

/// The (current name, new name) pairs of the renames among `acts`, in order.
pub open spec fn rename_pairs(acts: Seq<ActionView>) -> Seq<(Seq<char>, Seq<char>)>
    decreases acts.len(),
{
    if acts.len() == 0 {
        Seq::empty()
    } else {
        let prev = rename_pairs(acts.drop_last());
        match acts.last() {
            ActionView::Rename { old_name, new_name } => prev.push((old_name, new_name)),
            _ => prev,
        }
    }
}

/// Pairs of strings, as pairs of character sequences.
pub open spec fn pairs_view(v: Seq<(String, String)>) -> Seq<(Seq<char>, Seq<char>)> {
    v.map_values(|p: (String, String)| (p.0@, p.1@))
}

impl Preview {
    /// How many rows will be renamed.
    pub fn rename_count(&self) -> (n: usize)
        ensures
            n == count_renames(self@.actions),
    {
        let mut n: usize = 0;
        let mut i: usize = 0;
        while i < self.actions.len()
            invariant
                i <= self.actions@.len(),
                n == count_renames(actions_view(self.actions@).take(i as int)),
                n <= i,
            decreases self.actions.len() - i,
        {
            proof {
                let t = actions_view(self.actions@).take(i + 1);
                assert(t.drop_last() =~= actions_view(self.actions@).take(i as int));
            }
            if let RowAction::Rename { .. } = &self.actions[i] {
                n = n + 1;
            }
            i = i + 1;
        }
        assert(actions_view(self.actions@).take(i as int) =~= actions_view(self.actions@));
        n
    }

    /// How many rows are skipped.
    pub fn skip_count(&self) -> (n: usize)
        ensures
            n == count_skips(self@.actions),
    {
        let mut n: usize = 0;
        let mut i: usize = 0;
        while i < self.actions.len()
            invariant
                i <= self.actions@.len(),
                n == count_skips(actions_view(self.actions@).take(i as int)),
                n <= i,
            decreases self.actions.len() - i,
        {
            proof {
                let t = actions_view(self.actions@).take(i + 1);
                assert(t.drop_last() =~= actions_view(self.actions@).take(i as int));
            }
            if let RowAction::Skip { .. } = &self.actions[i] {
                n = n + 1;
            }
            i = i + 1;
        }
        assert(actions_view(self.actions@).take(i as int) =~= actions_view(self.actions@));
        n
    }

    /// How many rows are rejected.
    pub fn reject_count(&self) -> (n: usize)
        ensures
            n == count_rejects(self@.actions),
    {
        let mut n: usize = 0;
        let mut i: usize = 0;
        while i < self.actions.len()
            invariant
                i <= self.actions@.len(),
                n == count_rejects(actions_view(self.actions@).take(i as int)),
                n <= i,
            decreases self.actions.len() - i,
        {
            proof {
                let t = actions_view(self.actions@).take(i + 1);
                assert(t.drop_last() =~= actions_view(self.actions@).take(i as int));
            }
            if let RowAction::Reject { .. } = &self.actions[i] {
                n = n + 1;
            }
            i = i + 1;
        }
        assert(actions_view(self.actions@).take(i as int) =~= actions_view(self.actions@));
        n
    }

    /// The renames to perform, as (current name, new name) pairs in row order.
    pub fn planned_renames(&self) -> (v: Vec<(String, String)>)
        ensures
            pairs_view(v@) == rename_pairs(self@.actions),
    {
        let mut v: Vec<(String, String)> = Vec::new();
        let mut i: usize = 0;
        assert(pairs_view(v@) =~= Seq::<(Seq<char>, Seq<char>)>::empty());
        while i < self.actions.len()
            invariant
                i <= self.actions@.len(),
                pairs_view(v@) == rename_pairs(actions_view(self.actions@).take(i as int)),
            decreases self.actions.len() - i,
        {
            proof {
                let t = actions_view(self.actions@).take(i + 1);
                assert(t.drop_last() =~= actions_view(self.actions@).take(i as int));
            }
            if let RowAction::Rename { old_name, new_name } = &self.actions[i] {
                let pair = (old_name.clone(), new_name.clone());
                assert(pairs_view(v@.push(pair)) =~= pairs_view(v@).push((pair.0@, pair.1@)));
                v.push(pair);
            }
            i = i + 1;
        }
        assert(actions_view(self.actions@).take(i as int) =~= actions_view(self.actions@));
        v
    }
}

pub const MSG_NO_ROOT: &'static str = "请先选择根目录";

pub const MSG_NO_TABLE: &'static str = "请先选择 Excel 文件";

pub const MSG_NO_RESTORE_TABLE: &'static str = "请先选择用于还原的 Excel 对照表";

pub const MSG_NOT_CONFIRMED: &'static str = "请先勾选：我已核对 Excel，确认扩展名与新文件名称无误";

pub const MSG_RESTORE_NOT_CONFIRMED: &'static str = "请先勾选：我已核对，确认把新文件名改回原来的名字";

pub const MSG_NOTHING_TO_RENAME: &'static str = "没有可执行的改名项";

pub const MSG_NOTHING_TO_RESTORE: &'static str = "对照表中没有可还原的改名项（请确认文件夹里现在是新文件名）";

/// A preview given or not, by its view.
pub open spec fn opt_preview_view(preview: Option<&Preview>) -> Option<PreviewView> {
    match preview {
        Some(p) => Some(p@),
        None => None,
    }
}

/// Why a batch (a rename, or with `restoring` the undoing of one) may not run,
/// checked in this order: no data directory chosen, no preview, a preview that
/// blocks the whole batch (its error is the answer), no confirmation by the
/// user, nothing to rename. `None` when it may run.
pub open spec fn batch_refusal(
    root_chosen: bool,
    preview: Option<PreviewView>,
    confirmed: bool,
    restoring: bool,
) -> Option<Seq<char>> {
    if !root_chosen {
        Some(MSG_NO_ROOT@)
    } else {
        match preview {
            None => Some(
                if restoring {
                    MSG_NO_RESTORE_TABLE@
                } else {
                    MSG_NO_TABLE@
                },
            ),
            Some(p) => match p.blocking_error {
                Some(e) => Some(e),
                None => if !confirmed {
                    Some(
                        if restoring {
                            MSG_RESTORE_NOT_CONFIRMED@
                        } else {
                            MSG_NOT_CONFIRMED@
                        },
                    )
                } else if rename_pairs(p.actions).len() == 0 {
                    Some(
                        if restoring {
                            MSG_NOTHING_TO_RESTORE@
                        } else {
                            MSG_NOTHING_TO_RENAME@
                        },
                    )
                } else {
                    None
                },
            },
        }
    }
}

/// The renames to carry out, once it is checked that the batch may run: a data
/// directory is chosen, a preview is given and does not block the batch, the
/// user has confirmed it, and it plans at least one rename. Otherwise the message
/// that refuses the batch (see `batch_refusal`).
pub fn batch_to_run(
    root_chosen: bool,
    preview: Option<&Preview>,
    confirmed: bool,
    restoring: bool,
) -> (r: Result<Vec<(String, String)>, String>)
    ensures
        r is Ok <==> (root_chosen && preview is Some && preview.unwrap()@.blocking_error is None
            && confirmed && rename_pairs(preview.unwrap()@.actions).len() > 0),
        r matches Ok(v) ==> pairs_view(v@) == rename_pairs(preview.unwrap()@.actions),
        r matches Err(m) ==> batch_refusal(root_chosen, opt_preview_view(preview), confirmed, restoring)
            == Some(m@),
{
    if !root_chosen {
        return Err(String::from_str(MSG_NO_ROOT));
    }
    let p = match preview {
        Some(p) => p,
        None => {
            return Err(
                String::from_str(
                    if restoring {
                        MSG_NO_RESTORE_TABLE
                    } else {
                        MSG_NO_TABLE
                    },
                ),
            );
        },
    };
    match &p.blocking_error {
        Some(e) => {
            return Err(e.clone());
        },
        None => {},
    }
    if !confirmed {
        return Err(
            String::from_str(
                if restoring {
                    MSG_RESTORE_NOT_CONFIRMED
                } else {
                    MSG_NOT_CONFIRMED
                },
            ),
        );
    }
    let pairs = p.planned_renames();
    if pairs.len() == 0 {
        return Err(
            String::from_str(
                if restoring {
                    MSG_NOTHING_TO_RESTORE
                } else {
                    MSG_NOTHING_TO_RENAME
                },
            ),
        );
    }
    Ok(pairs)
}

/// Whether some name occurs twice in `names`.
pub open spec fn has_repeat(names: Seq<Seq<char>>) -> bool {
    exists|i: int, j: int| 0 <= i < j < names.len() && names[i] == names[j]
}

/// The actions that the rows ask for, before they are checked against the directory.
pub open spec fn row_actions(rows: Seq<(Seq<char>, Seq<char>)>) -> Seq<ActionView> {
    first_pass(rows).map_values(|p: (ActionView, int)| p.0)
}

proof fn lemma_repeated_names(names: Seq<Seq<char>>)
    ensures
        repeated_names(names).len() > 0 <==> has_repeat(names),
    decreases names.len(),
{
    if names.len() > 0 {
        let prefix = names.drop_last();
        let x = names.last();
        lemma_repeated_names(prefix);
        if has_repeat(prefix) {
            let (i, j) = choose|i: int, j: int| 0 <= i < j < prefix.len() && prefix[i] == prefix[j];
            assert(names[i] == names[j]);
        }
        if prefix.contains(x) {
            let i = choose|i: int| 0 <= i < prefix.len() && prefix[i] == x;
            assert(names[i] == names[names.len() - 1]);
        }
        if has_repeat(names) {
            let (i, j) = choose|i: int, j: int| 0 <= i < j < names.len() && names[i] == names[j];
            if j < names.len() - 1 {
                assert(prefix[i] == prefix[j]);
            } else {
                assert(prefix[i] == x);
            }
        }
    }
}

proof fn lemma_rename_in_targets(acts: Seq<ActionView>, i: int)
    requires
        0 <= i < acts.len(),
        acts[i] is Rename,
    ensures
        rename_targets(acts).contains(acts[i]->Rename_new_name),
    decreases acts.len(),
{
    let prefix = acts.drop_last();
    if i < acts.len() - 1 {
        assert(prefix[i] == acts[i]);
        lemma_rename_in_targets(prefix, i);
        let k = choose|k: int|
            0 <= k < rename_targets(prefix).len() && rename_targets(prefix)[k]
                == acts[i]->Rename_new_name;
        assert(rename_targets(acts)[k] == acts[i]->Rename_new_name);
    } else {
        let t = rename_targets(acts);
        assert(t[t.len() - 1] == acts[i]->Rename_new_name);
    }
}

proof fn lemma_same_target_repeats(acts: Seq<ActionView>, i: int, j: int)
    requires
        0 <= i < j < acts.len(),
        acts[i] is Rename,
        acts[j] is Rename,
        acts[i]->Rename_new_name == acts[j]->Rename_new_name,
    ensures
        has_repeat(rename_targets(acts)),
    decreases acts.len(),
{
    let prefix = acts.drop_last();
    assert(prefix[i] == acts[i]);
    let t = rename_targets(acts);
    let pt = rename_targets(prefix);
    if j < acts.len() - 1 {
        assert(prefix[j] == acts[j]);
        lemma_same_target_repeats(prefix, i, j);
        let (a, b) = choose|a: int, b: int| 0 <= a < b < pt.len() && pt[a] == pt[b];
        assert(t[a] == t[b]);
    } else {
        lemma_rename_in_targets(prefix, i);
        let a = choose|a: int| 0 <= a < pt.len() && pt[a] == acts[i]->Rename_new_name;
        assert(t[a] == t[t.len() - 1]);
    }
}

proof fn lemma_first_pass_rows(rows: Seq<(Seq<char>, Seq<char>)>)
    ensures
        forall|k: int|
            0 <= k < first_pass(rows).len() ==> {
                let r = (#[trigger] first_pass(rows)[k]).1;
                &&& 0 <= r < rows.len()
                &&& classify_row(rows[r].0, rows[r].1) == Some(first_pass(rows)[k].0)
            },
        forall|k1: int, k2: int|
            0 <= k1 < k2 < first_pass(rows).len() ==> (#[trigger] first_pass(rows)[k1]).1 < (
            #[trigger] first_pass(rows)[k2]).1,
        forall|r: int|
            0 <= r < rows.len() && (#[trigger] classify_row(rows[r].0, rows[r].1)) is Some
                ==> exists|k: int| 0 <= k < first_pass(rows).len() && first_pass(rows)[k].1 == r,
    decreases rows.len(),
{
    if rows.len() > 0 {
        let prefix = rows.drop_last();
        lemma_first_pass_rows(prefix);
        let pf = first_pass(prefix);
        let fp = first_pass(rows);
        assert forall|k: int| 0 <= k < pf.len() implies (#[trigger] pf[k]).1 < rows.len() - 1
            && prefix[pf[k].1] == rows[pf[k].1] by {}
        assert forall|r: int|
            0 <= r < rows.len() && (#[trigger] classify_row(rows[r].0, rows[r].1)) is Some implies exists|k: int|
                0 <= k < fp.len() && fp[k].1 == r by {
            if r < rows.len() - 1 {
                assert(prefix[r] == rows[r]);
                assert(classify_row(prefix[r].0, prefix[r].1) is Some);
                let k = choose|k: int| 0 <= k < pf.len() && pf[k].1 == r;
                assert(fp[k] == pf[k]);
            } else {
                assert(fp[fp.len() - 1].1 == r);
            }
        }
    }
}

/// Each count of a preview counts a kind of action, and every action is of one
/// kind: the three counts add up to the number of actions.
pub proof fn law_counts_cover_actions(acts: Seq<ActionView>)
    ensures
        count_renames(acts) + count_skips(acts) + count_rejects(acts) == acts.len(),
    decreases acts.len(),
{
    if acts.len() > 0 {
        law_counts_cover_actions(acts.drop_last());
    }
}

/// The whole batch is refused exactly when two rows that would be renamed ask for
/// the same new name.
pub proof fn law_duplicate_new_names_block(
    rows: Seq<(Seq<char>, Seq<char>)>,
    on_disk: Seq<Seq<char>>,
    target_exists: Seq<bool>,
)
    requires
        target_exists.len() == rows.len(),
    ensures
        preview_of(rows, on_disk, target_exists).blocking_error is Some <==> has_repeat(
            rename_targets(row_actions(rows)),
        ),
{
    lemma_repeated_names(rename_targets(row_actions(rows)));
}

proof fn lemma_preview_settled(
    rows: Seq<(Seq<char>, Seq<char>)>,
    on_disk: Seq<Seq<char>>,
    target_exists: Seq<bool>,
)
    ensures
        ({
            let acts = preview_of(rows, on_disk, target_exists).actions;
            &&& narrower(acts, row_actions(rows))
            &&& preview_of(rows, on_disk, target_exists).blocking_error is None ==> settle_round(
                acts,
                action_rows(first_pass(rows)),
                on_disk,
                target_exists,
            ) == acts
        }),
{
    let ra = row_actions(rows);
    lemma_count_le_len(ra);
    lemma_settle_rounds(ra, action_rows(first_pass(rows)), on_disk, target_exists, ra.len());
    assert(narrower(ra, ra));
}

proof fn lemma_rename_sources_contains(acts: Seq<ActionView>, x: Seq<char>)
    ensures
        rename_sources(acts).contains(x) <==> exists|j: int|
            0 <= j < acts.len() && (#[trigger] acts[j]) is Rename && acts[j]->Rename_old_name == x,
    decreases acts.len(),
{
    if acts.len() > 0 {
        let p = acts.drop_last();
        let sp = rename_sources(p);
        let sa = rename_sources(acts);
        lemma_rename_sources_contains(p, x);
        let last = acts.last();
        assert(acts[acts.len() - 1] == last);
        assert forall|j: int| 0 <= j < p.len() implies #[trigger] p[j] == acts[j] by {}
        if last is Rename {
            assert(sa == sp.push(last->Rename_old_name));
            if sa.contains(x) {
                let i = choose|i: int| 0 <= i < sa.len() && sa[i] == x;
                if i < sp.len() {
                    assert(sp[i] == x);
                    assert(sp.contains(x));
                    let j = choose|j: int| 0 <= j < p.len() && (#[trigger] p[j]) is Rename
                        && p[j]->Rename_old_name == x;
                    assert(acts[j] == p[j]);
                } else {
                    assert(acts[acts.len() - 1] is Rename);
                }
            }
            if exists|j: int| 0 <= j < acts.len() && (#[trigger] acts[j]) is Rename && acts[j]->Rename_old_name == x {
                let j = choose|j: int| 0 <= j < acts.len() && (#[trigger] acts[j]) is Rename && acts[j]->Rename_old_name == x;
                if j < p.len() {
                    assert(p[j] == acts[j]);
                    assert(sp.contains(x));
                    let i = choose|i: int| 0 <= i < sp.len() && sp[i] == x;
                    assert(sa[i] == x);
                } else {
                    assert(sa[sp.len() as int] == x);
                }
            }
        } else {
            assert(sa == sp);
            if exists|j: int| 0 <= j < acts.len() && (#[trigger] acts[j]) is Rename && acts[j]->Rename_old_name == x {
                let j = choose|j: int| 0 <= j < acts.len() && (#[trigger] acts[j]) is Rename && acts[j]->Rename_old_name == x;
                assert(j < p.len());
                assert(p[j] == acts[j]);
            }
            if sa.contains(x) {
                let j = choose|j: int| 0 <= j < p.len() && (#[trigger] p[j]) is Rename
                    && p[j]->Rename_old_name == x;
                assert(acts[j] == p[j]);
            }
        }
    }
}

/// In a batch that is not refused, no two planned renames share a new name.
pub proof fn law_planned_targets_distinct(
    rows: Seq<(Seq<char>, Seq<char>)>,
    on_disk: Seq<Seq<char>>,
    target_exists: Seq<bool>,
)
    requires
        target_exists.len() == rows.len(),
        preview_of(rows, on_disk, target_exists).blocking_error is None,
    ensures
        ({
            let acts = preview_of(rows, on_disk, target_exists).actions;
            forall|i: int, j: int|
                0 <= i < j < acts.len() && acts[i] is Rename && acts[j] is Rename
                    ==> #[trigger] acts[i]->Rename_new_name != #[trigger] acts[j]->Rename_new_name
        }),
{
    let acts = preview_of(rows, on_disk, target_exists).actions;
    let ra = row_actions(rows);
    lemma_repeated_names(rename_targets(ra));
    lemma_preview_settled(rows, on_disk, target_exists);
    assert forall|i: int, j: int|
        0 <= i < j < acts.len() && acts[i] is Rename && acts[j] is Rename implies #[trigger] acts[i]->Rename_new_name
        != #[trigger] acts[j]->Rename_new_name by {
        assert(ra[i] == acts[i]);
        assert(ra[j] == acts[j]);
        if acts[i]->Rename_new_name == acts[j]->Rename_new_name {
            lemma_same_target_repeats(ra, i, j);
        }
    }
}

/// Every rename that a preview plans comes from one row of the table: its names
/// are that row's names trimmed, the new name is a valid file name different from
/// the current one, and the current file is in the directory. No planned rename
/// overwrites a file: where its new name already names an entry of the
/// directory, that entry is the current file of another rename that the preview
/// plans too, and so moves away in the same batch.
pub proof fn law_planned_rename_is_safe(
    rows: Seq<(Seq<char>, Seq<char>)>,
    on_disk: Seq<Seq<char>>,
    target_exists: Seq<bool>,
    k: int,
)
    requires
        target_exists.len() == rows.len(),
        preview_of(rows, on_disk, target_exists).blocking_error is None,
        0 <= k < preview_of(rows, on_disk, target_exists).actions.len(),
        preview_of(rows, on_disk, target_exists).actions[k] is Rename,
    ensures
        ({
            let acts = preview_of(rows, on_disk, target_exists).actions;
            let a = acts[k];
            let r = first_pass(rows)[k].1;
            let old_name = a->Rename_old_name;
            let new_name = a->Rename_new_name;
            &&& 0 <= r < rows.len()
            &&& old_name == trim(rows[r].0)
            &&& new_name == trim(rows[r].1)
            &&& old_name.len() > 0
            &&& new_name.len() > 0
            &&& new_name != old_name
            &&& check_filename(new_name) is Ok
            &&& on_disk.contains(old_name)
            &&& target_exists[r] ==> exists|j: int|
                0 <= j < acts.len() && (#[trigger] acts[j]) is Rename && acts[j]->Rename_old_name
                    == new_name
        }),
{
    lemma_first_pass_rows(rows);
    lemma_preview_settled(rows, on_disk, target_exists);
    let fp = first_pass(rows);
    let acts = preview_of(rows, on_disk, target_exists).actions;
    let ra = row_actions(rows);
    assert(ra[k] == fp[k].0);
    assert(acts[k] == ra[k]);
    let ro = action_rows(fp);
    assert(ro[k] == fp[k].1);
    let round = settle_round(acts, ro, on_disk, target_exists);
    assert(round[k] == acts[k]);
    lemma_rename_sources_contains(acts, acts[k]->Rename_new_name);
}

/// A row becomes a skip exactly when its trimmed new name is blank or equal to its
/// trimmed current name; rows whose current name is blank yield no action at all.
pub proof fn law_skip_rows(
    rows: Seq<(Seq<char>, Seq<char>)>,
    on_disk: Seq<Seq<char>>,
    target_exists: Seq<bool>,
)
    requires
        target_exists.len() == rows.len(),
    ensures
        ({
            let acts = preview_of(rows, on_disk, target_exists).actions;
            let fp = first_pass(rows);
            &&& acts.len() == fp.len()
            &&& forall|k: int|
                0 <= k < acts.len() ==> {
                    let r = (#[trigger] fp[k]).1;
                    &&& 0 <= r < rows.len()
                    &&& trim(rows[r].0).len() > 0
                    &&& (acts[k] is Skip <==> (trim(rows[r].1).len() == 0 || trim(rows[r].1)
                        == trim(rows[r].0)))
                }
            &&& forall|r: int|
                0 <= r < rows.len() ==> (trim(rows[r].0).len() > 0 <==> exists|k: int|
                    0 <= k < fp.len() && #[trigger] fp[k].1 == r)
        }),
{
    lemma_first_pass_rows(rows);
    lemma_preview_settled(rows, on_disk, target_exists);
    let fp = first_pass(rows);
    let acts = preview_of(rows, on_disk, target_exists).actions;
    let ra = row_actions(rows);
    assert forall|k: int| 0 <= k < acts.len() implies (acts[k] is Skip <==> ra[k] is Skip) by {
        assert(acts[k] == ra[k] || (ra[k] is Rename && acts[k] is Reject));
    }
    assert forall|k: int| 0 <= k < fp.len() implies ra[k] == (#[trigger] fp[k]).0 by {}
    assert forall|r: int| 0 <= r < rows.len() implies (trim(rows[r].0).len() > 0 <==> exists|k: int|
        0 <= k < fp.len() && #[trigger] fp[k].1 == r) by {
        if trim(rows[r].0).len() > 0 {
            assert(classify_row(rows[r].0, rows[r].1) is Some);
        }
        if exists|k: int| 0 <= k < fp.len() && #[trigger] fp[k].1 == r {
            let k = choose|k: int| 0 <= k < fp.len() && #[trigger] fp[k].1 == r;
            assert(classify_row(rows[r].0, rows[r].1) is Some);
        }
    }
}


/// Restoring reads every row of the table the other way round: row `r` asks for
/// its new name to go back to its current name, for every row and no other,
/// so the restore preview is the preview of the table with each row's two names
/// exchanged, and checks each row as `build_preview` checks a row.
pub proof fn law_restore_reads_rows_backwards(
    rows: Seq<(Seq<char>, Seq<char>)>,
    on_disk: Seq<Seq<char>>,
    target_exists: Seq<bool>,
)
    ensures
        swapped_rows(rows).len() == rows.len(),
        forall|r: int| 0 <= r < rows.len() ==> #[trigger] swapped_rows(rows)[r] == (rows[r].1, rows[r].0),
        preview_of(swapped_rows(rows), on_disk, target_exists) == preview_of(
            Seq::new(rows.len(), |r: int| (rows[r].1, rows[r].0)),
            on_disk,
            target_exists,
        ),
{
    assert(swapped_rows(rows) =~= Seq::new(rows.len(), |r: int| (rows[r].1, rows[r].0)));
}


proof fn lemma_first_pass_all(rows: Seq<(Seq<char>, Seq<char>)>)
    requires
        forall|r: int| 0 <= r < rows.len() ==> (#[trigger] classify_row(rows[r].0, rows[r].1)) is Some,
    ensures
        first_pass(rows) == Seq::new(
            rows.len(),
            |r: int| (classify_row(rows[r].0, rows[r].1)->Some_0, r),
        ),
    decreases rows.len(),
{
    if rows.len() > 0 {
        let p = rows.drop_last();
        assert forall|r: int| 0 <= r < p.len() implies (#[trigger] classify_row(p[r].0, p[r].1)) is Some by {
            assert(p[r] == rows[r]);
        }
        lemma_first_pass_all(p);
        assert(rows.last() == rows[rows.len() - 1]);
        assert(classify_row(rows[rows.len() - 1].0, rows[rows.len() - 1].1) is Some);
        assert(first_pass(rows) =~= Seq::new(
            rows.len(),
            |r: int| (classify_row(rows[r].0, rows[r].1)->Some_0, r),
        ));
    } else {
        assert(first_pass(rows) =~= Seq::new(
            rows.len(),
            |r: int| (classify_row(rows[r].0, rows[r].1)->Some_0, r),
        ));
    }
}

proof fn lemma_all_renames(acts: Seq<ActionView>)
    requires
        forall|k: int| 0 <= k < acts.len() ==> (#[trigger] acts[k]) is Rename,
    ensures
        rename_pairs(acts) == Seq::new(
            acts.len(),
            |k: int| (acts[k]->Rename_old_name, acts[k]->Rename_new_name),
        ),
        rename_targets(acts) == Seq::new(acts.len(), |k: int| acts[k]->Rename_new_name),
    decreases acts.len(),
{
    if acts.len() > 0 {
        let p = acts.drop_last();
        assert forall|k: int| 0 <= k < p.len() implies (#[trigger] p[k]) is Rename by {
            assert(p[k] == acts[k]);
        }
        lemma_all_renames(p);
        assert(acts.last() == acts[acts.len() - 1]);
        assert(rename_pairs(acts) =~= Seq::new(
            acts.len(),
            |k: int| (acts[k]->Rename_old_name, acts[k]->Rename_new_name),
        ));
        assert(rename_targets(acts) =~= Seq::new(acts.len(), |k: int| acts[k]->Rename_new_name));
    } else {
        assert(rename_pairs(acts) =~= Seq::new(
            acts.len(),
            |k: int| (acts[k]->Rename_old_name, acts[k]->Rename_new_name),
        ));
        assert(rename_targets(acts) =~= Seq::new(acts.len(), |k: int| acts[k]->Rename_new_name));
    }
}

/// Restoring a carried-out table renames every file back. Take a table whose
/// rows all name, after trimming, a current name and a different new name; whose
/// current names are valid file names, pairwise distinct and free in the
/// directory; and whose new names are all files of the directory (the state after
/// the batch ran). Then the restore is not blocked and plans, in the table's
/// order, exactly one rename per row: the trimmed new name back to the trimmed
/// current name.
pub proof fn law_restore_undoes_every_row(
    rows: Seq<(Seq<char>, Seq<char>)>,
    on_disk: Seq<Seq<char>>,
    target_exists: Seq<bool>,
)
    requires
        target_exists.len() == rows.len(),
        forall|r: int|
            0 <= r < rows.len() ==> {
                &&& trim((#[trigger] rows[r]).0).len() > 0
                &&& trim(rows[r].1).len() > 0
                &&& trim(rows[r].0) != trim(rows[r].1)
                &&& check_filename(trim(rows[r].0)) is Ok
                &&& on_disk.contains(trim(rows[r].1))
                &&& !target_exists[r]
            },
        forall|r1: int, r2: int|
            0 <= r1 < r2 < rows.len() ==> trim((#[trigger] rows[r1]).0) != trim(
                (#[trigger] rows[r2]).0,
            ),
    ensures
        ({
            let p = preview_of(swapped_rows(rows), on_disk, target_exists);
            &&& p.blocking_error is None
            &&& rename_pairs(p.actions) == Seq::new(
                rows.len(),
                |r: int| (trim(rows[r].1), trim(rows[r].0)),
            )
        }),
{
    let sw = swapped_rows(rows);
    assert forall|r: int| 0 <= r < sw.len() implies (#[trigger] classify_row(sw[r].0, sw[r].1)) is Some
        && classify_row(sw[r].0, sw[r].1)->Some_0 == (ActionView::Rename {
            old_name: trim(rows[r].1),
            new_name: trim(rows[r].0),
        }) by {
        assert(sw[r] == (rows[r].1, rows[r].0));
        assert(trim(rows[r].1) != trim(rows[r].0));
    }
    lemma_first_pass_all(sw);
    let fp = first_pass(sw);
    let acts = fp.map_values(|q: (ActionView, int)| q.0);
    assert forall|k: int| 0 <= k < acts.len() implies (#[trigger] acts[k]) is Rename by {
        assert(acts[k] == fp[k].0);
    }
    lemma_all_renames(acts);
    let targets = rename_targets(acts);
    assert(!has_repeat(targets)) by {
        if has_repeat(targets) {
            let (i, j) = choose|i: int, j: int| 0 <= i < j < targets.len() && targets[i] == targets[j];
            assert(targets[i] == trim(rows[i].0));
            assert(targets[j] == trim(rows[j].0));
        }
    }
    lemma_repeated_names(targets);
    let ro = action_rows(fp);
    let round = settle_round(acts, ro, on_disk, target_exists);
    assert forall|k: int| 0 <= k < acts.len() implies round[k] == acts[k] by {
        assert(ro[k] == k);
        assert(acts[k]->Rename_old_name == trim(rows[k].1));
    }
    assert(round =~= acts);
    assert(settle_rounds(acts, ro, on_disk, target_exists, acts.len()) == acts);
    assert(rename_pairs(acts) =~= Seq::new(rows.len(), |r: int| (trim(rows[r].1), trim(rows[r].0))));
}

} // verus!
