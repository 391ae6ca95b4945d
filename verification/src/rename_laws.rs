//! What a rename run does to a directory whose every operation succeeds, and
//! to one where a single move to a temporary name fails.

use vstd::prelude::*;

use crate::ledger::{lemma_find_entry_bounds, mark_entry, planned_entries, EntryStatus, EntryView, find_entry};
use crate::rename::{
    with_entries, at_stage, commit_from, count_status, lemma_restore_from_any_stage, mark_all_failed, restore_from,
    run_next, run_start, run_step, scan_from, undo_pairs, ReplyView, RunView, StageView,
    StagedView, StepView, MSG_CANNOT_RESTORE, MSG_NOT_RUN, MSG_ROLLED_BACK, MSG_SOURCE_GONE,
};

verus! {

/// A directory: the names it holds, each with the identity of the file's content.
pub type Dir = Map<Seq<char>, int>;

/// The current names of a batch.
pub open spec fn olds_of(pairs: Seq<(Seq<char>, Seq<char>)>) -> Seq<Seq<char>> {
    pairs.map_values(|p: (Seq<char>, Seq<char>)| p.0)
}

/// The new names of a batch.
pub open spec fn news_of(pairs: Seq<(Seq<char>, Seq<char>)>) -> Seq<Seq<char>> {
    pairs.map_values(|p: (Seq<char>, Seq<char>)| p.1)
}

/// No name occurs twice.
pub open spec fn all_distinct(s: Seq<Seq<char>>) -> bool {
    forall|i: int, j: int| 0 <= i < j < s.len() ==> s[i] != s[j]
}

/// The reply that a directory `dir` gives to the step of `s` when every operation
/// on it succeeds: sources are checked against `dir`, the temporary name of pair
/// `i` is `temps[i]`, a move of a present name goes through, and the ledger is
/// written to `path`; the directory after the step comes with the reply.
pub open spec fn ideal_reply(s: RunView, dir: Dir, temps: Seq<Seq<char>>, path: Seq<char>) -> (
    ReplyView,
    Dir,
) {
    match run_step(s) {
        StepView::WriteLedger => (ReplyView::LedgerWritten(Ok(path)), dir),
        StepView::CheckSource { name } => (ReplyView::SourceChecked(dir.contains_key(name)), dir),
        StepView::NeedTempName => (
            ReplyView::TempName(
                match s.stage {
                    StageView::Temp { index } => temps[index],
                    _ => Seq::empty(),
                },
            ),
            dir,
        ),
        StepView::Move { from, to } => if dir.contains_key(from) {
            (ReplyView::Moved(Ok(())), dir.remove(from).insert(to, dir[from]))
        } else {
            (ReplyView::Moved(Err(Seq::empty())), dir)
        },
        StepView::Finished => (ReplyView::SourceChecked(false), dir),
    }
}

/// `steps` steps of the run `s` against the directory `dir`, every operation
/// succeeding as `ideal_reply` says.
pub open spec fn run_ideal(
    s: RunView,
    dir: Dir,
    temps: Seq<Seq<char>>,
    path: Seq<char>,
    steps: nat,
) -> (RunView, Dir)
    decreases steps,
{
    if steps == 0 {
        (s, dir)
    } else {
        let (r, d) = ideal_reply(s, dir, temps, path);
        run_ideal(run_next(s, r), d, temps, path, (steps - 1) as nat)
    }
}

proof fn lemma_run_ideal_split(
    s: RunView,
    dir: Dir,
    temps: Seq<Seq<char>>,
    path: Seq<char>,
    a: nat,
    b: nat,
)
    ensures
        run_ideal(s, dir, temps, path, a + b) == run_ideal(
            run_ideal(s, dir, temps, path, a).0,
            run_ideal(s, dir, temps, path, a).1,
            temps,
            path,
            b,
        ),
    decreases a,
{
    if a > 0 {
        let (r, d) = ideal_reply(s, dir, temps, path);
        lemma_run_ideal_split(run_next(s, r), d, temps, path, (a - 1) as nat, b);
        assert((a + b - 1) as nat == ((a - 1) as nat + b) as nat);
    }
}

/// The pairs staged after the first `i` pairs moved to their temporary names.
pub open spec fn staged_prefix(
    pairs: Seq<(Seq<char>, Seq<char>)>,
    temps: Seq<Seq<char>>,
    i: int,
) -> Seq<StagedView> {
    Seq::new(
        i as nat,
        |k: int| StagedView { old_name: pairs[k].0, new_name: pairs[k].1, temp_name: temps[k] },
    )
}

/// The directory after the first `i` pairs moved to their temporary names.
pub open spec fn dir_parked(
    dir0: Dir,
    pairs: Seq<(Seq<char>, Seq<char>)>,
    temps: Seq<Seq<char>>,
    i: nat,
) -> Dir
    decreases i,
{
    if i == 0 {
        dir0
    } else {
        let d = dir_parked(dir0, pairs, temps, (i - 1) as nat);
        let o = pairs[i - 1].0;
        d.remove(o).insert(temps[i - 1], d[o])
    }
}

/// The directory after, in addition, the first `j` temporary names moved to
/// their new names.
pub open spec fn dir_committed(
    dir0: Dir,
    pairs: Seq<(Seq<char>, Seq<char>)>,
    temps: Seq<Seq<char>>,
    j: nat,
) -> Dir
    decreases j,
{
    if j == 0 {
        dir_parked(dir0, pairs, temps, pairs.len())
    } else {
        let d = dir_committed(dir0, pairs, temps, (j - 1) as nat);
        let t = temps[j - 1];
        d.remove(t).insert(pairs[j - 1].1, d[t])
    }
}

/// A batch and temporary names for which a run cannot trip over itself: the
/// current names are distinct and present, the new names are distinct, and the
/// temporary names are distinct, absent from the directory, and different from
/// every current and new name.
pub open spec fn clean_batch(dir0: Dir, pairs: Seq<(Seq<char>, Seq<char>)>, temps: Seq<Seq<char>>) -> bool {
    &&& pairs.len() > 0
    &&& temps.len() == pairs.len()
    &&& all_distinct(olds_of(pairs))
    &&& all_distinct(news_of(pairs))
    &&& all_distinct(temps)
    &&& forall|k: int| 0 <= k < pairs.len() ==> dir0.contains_key(#[trigger] pairs[k].0)
    &&& forall|k: int| 0 <= k < temps.len() ==> !dir0.contains_key(#[trigger] temps[k])
    &&& forall|k: int, m: int|
        0 <= k < temps.len() && 0 <= m < pairs.len() ==> #[trigger] temps[k] != (#[trigger] pairs[m]).0
            && temps[k] != pairs[m].1
}

proof fn lemma_dir_parked(
    dir0: Dir,
    pairs: Seq<(Seq<char>, Seq<char>)>,
    temps: Seq<Seq<char>>,
    i: nat,
)
    requires
        clean_batch(dir0, pairs, temps),
        i <= pairs.len(),
    ensures
        forall|k: int|
            i <= k < pairs.len() ==> dir_parked(dir0, pairs, temps, i).contains_key(
                #[trigger] pairs[k].0,
            ) && dir_parked(dir0, pairs, temps, i)[pairs[k].0] == dir0[pairs[k].0],
        forall|k: int|
            0 <= k < i ==> dir_parked(dir0, pairs, temps, i).contains_key(#[trigger] temps[k])
                && dir_parked(dir0, pairs, temps, i)[temps[k]] == dir0[pairs[k].0],
        forall|k: int|
            i <= k < temps.len() ==> !dir_parked(dir0, pairs, temps, i).contains_key(
                #[trigger] temps[k],
            ),
        forall|x: Seq<char>|
            !olds_of(pairs).contains(x) && !temps.contains(x) ==> (dir_parked(
                dir0,
                pairs,
                temps,
                i,
            ).contains_key(x) <==> dir0.contains_key(x)) && (dir0.contains_key(x) ==> dir_parked(
                dir0,
                pairs,
                temps,
                i,
            )[x] == dir0[x]),
        forall|k: int|
            0 <= k < i ==> !dir_parked(dir0, pairs, temps, i).contains_key(#[trigger] pairs[k].0),
    decreases i,
{
    if i > 0 {
        let j = (i - 1) as nat;
        lemma_dir_parked(dir0, pairs, temps, j);
        let d = dir_parked(dir0, pairs, temps, j);
        let o = pairs[j as int].0;
        let t = temps[j as int];
        assert forall|k: int| i <= k < pairs.len() implies #[trigger] pairs[k].0 != o by {
            assert(olds_of(pairs)[k] == pairs[k].0);
            assert(olds_of(pairs)[j as int] == o);
        }
        assert forall|k: int| 0 <= k < j implies #[trigger] temps[k] != o && temps[k] != t by {
            assert(temps[k] != pairs[j as int].0);
        }
        assert forall|k: int| 0 <= k < j implies #[trigger] pairs[k].0 != t && pairs[k].0 != o by {
            assert(temps[j as int] != pairs[k].0);
            assert(olds_of(pairs)[k] == pairs[k].0);
            assert(olds_of(pairs)[j as int] == o);
        }
        assert forall|x: Seq<char>| !olds_of(pairs).contains(x) && !temps.contains(x) implies x != o
            && x != t by {
            assert(olds_of(pairs)[j as int] == o);
            assert(temps[j as int] == t);
        }
    }
}

/// The entries after the first `j` pairs of a batch were marked successful.
pub open spec fn committed_entries(pairs: Seq<(Seq<char>, Seq<char>)>, j: nat) -> Seq<EntryView>
    decreases j,
{
    if j == 0 {
        planned_entries(pairs)
    } else {
        mark_entry(committed_entries(pairs, (j - 1) as nat), pairs[j - 1].0, EntryStatus::Success, None)
    }
}

proof fn lemma_find_unique(es: Seq<EntryView>, o: Seq<char>, k: int)
    requires
        0 <= k < es.len(),
        es[k].old_name == o,
        forall|a: int, b: int| 0 <= a < b < es.len() ==> es[a].old_name != es[b].old_name,
    ensures
        find_entry(es, o) == k,
{
    lemma_find_entry_bounds(es, o);
    let f = find_entry(es, o);
    if f < k {
        assert(es[f].old_name == es[k].old_name);
    }
}

proof fn lemma_committed_entries(pairs: Seq<(Seq<char>, Seq<char>)>, j: nat)
    requires
        all_distinct(olds_of(pairs)),
        j <= pairs.len(),
    ensures
        committed_entries(pairs, j).len() == pairs.len(),
        forall|k: int|
            0 <= k < pairs.len() ==> (#[trigger] committed_entries(pairs, j)[k]).old_name
                == pairs[k].0 && committed_entries(pairs, j)[k].new_name == pairs[k].1 && (committed_entries(pairs, j)[k].status == if k < j {
                EntryStatus::Success
            } else {
                EntryStatus::Planned
            }),
    decreases j,
{
    if j > 0 {
        let i = (j - 1) as nat;
        lemma_committed_entries(pairs, i);
        let es = committed_entries(pairs, i);
        assert forall|a: int, b: int| 0 <= a < b < es.len() implies es[a].old_name != es[b].old_name by {
            assert(olds_of(pairs)[a] == pairs[a].0);
            assert(olds_of(pairs)[b] == pairs[b].0);
        }
        lemma_find_unique(es, pairs[i as int].0, i as int);
    }
}

proof fn lemma_count_all(es: Seq<EntryView>, st: EntryStatus)
    requires
        forall|k: int| 0 <= k < es.len() ==> (#[trigger] es[k]).status == st,
    ensures
        count_status(es, st) == es.len(),
        forall|other: EntryStatus| other != st ==> count_status(es, other) == 0,
    decreases es.len(),
{
    if es.len() > 0 {
        let p = es.drop_last();
        assert forall|k: int| 0 <= k < p.len() implies (#[trigger] p[k]).status == st by {
            assert(p[k] == es[k]);
        }
        lemma_count_all(p, st);
        assert(es.last() == es[es.len() - 1]);
        assert forall|other: EntryStatus| other != st implies count_status(es, other) == 0 by {
            assert(count_status(p, other) == 0);
        }
    }
}

/// The run after its ledger was first written and the first `i` pairs moved to
/// their temporary names.
pub open spec fn parked_state(
    pairs: Seq<(Seq<char>, Seq<char>)>,
    root: Seq<char>,
    created_at: Seq<char>,
    path: Seq<char>,
    temps: Seq<Seq<char>>,
    i: int,
) -> RunView {
    RunView {
        ledger_path: path,
        staged: staged_prefix(pairs, temps, i),
        stage: if i < pairs.len() {
            StageView::Check { index: i }
        } else {
            StageView::Commit { index: 0 }
        },
        ..run_start(pairs, root, created_at)
    }
}

/// The run after, in addition, the first `j` staged files got their new names.
pub open spec fn committed_state(
    pairs: Seq<(Seq<char>, Seq<char>)>,
    root: Seq<char>,
    created_at: Seq<char>,
    path: Seq<char>,
    temps: Seq<Seq<char>>,
    j: int,
) -> RunView {
    RunView {
        ledger_path: path,
        staged: staged_prefix(pairs, temps, pairs.len() as int),
        entries: committed_entries(pairs, j as nat),
        stage: if j < pairs.len() {
            StageView::Commit { index: j }
        } else {
            StageView::WriteLast
        },
        ..run_start(pairs, root, created_at)
    }
}

proof fn lemma_first_write(
    dir0: Dir,
    pairs: Seq<(Seq<char>, Seq<char>)>,
    root: Seq<char>,
    created_at: Seq<char>,
    path: Seq<char>,
    temps: Seq<Seq<char>>,
)
    requires
        clean_batch(dir0, pairs, temps),
    ensures
        run_ideal(run_start(pairs, root, created_at), dir0, temps, path, 1) == (
            parked_state(pairs, root, created_at, path, temps, 0),
            dir0,
        ),
{
    let s0 = run_start(pairs, root, created_at);
    let s1 = run_next(s0, ReplyView::LedgerWritten(Ok(path)));
    assert(staged_prefix(pairs, temps, 0) =~= Seq::<StagedView>::empty());
    assert(s1 == parked_state(pairs, root, created_at, path, temps, 0));
    assert(run_ideal(s1, dir0, temps, path, 0) == (s1, dir0));
}

proof fn lemma_park_one(
    dir0: Dir,
    pairs: Seq<(Seq<char>, Seq<char>)>,
    root: Seq<char>,
    created_at: Seq<char>,
    path: Seq<char>,
    temps: Seq<Seq<char>>,
    i: int,
)
    requires
        clean_batch(dir0, pairs, temps),
        0 <= i < pairs.len(),
    ensures
        run_ideal(
            parked_state(pairs, root, created_at, path, temps, i),
            dir_parked(dir0, pairs, temps, i as nat),
            temps,
            path,
            3,
        ) == (
            parked_state(pairs, root, created_at, path, temps, i + 1),
            dir_parked(dir0, pairs, temps, (i + 1) as nat),
        ),
{
    lemma_dir_parked(dir0, pairs, temps, i as nat);
    let d = dir_parked(dir0, pairs, temps, i as nat);
    let s0 = parked_state(pairs, root, created_at, path, temps, i);
    let o = pairs[i].0;
    let t = temps[i];
    assert(d.contains_key(o));
    let s1 = run_next(s0, ReplyView::SourceChecked(true));
    assert(s1 == at_stage_temp(s0, i));
    let s2 = run_next(s1, ReplyView::TempName(t));
    let d3 = d.remove(o).insert(t, d[o]);
    let s3 = run_next(s2, ReplyView::Moved(Ok(())));
    assert(staged_prefix(pairs, temps, i).push(
        StagedView { old_name: pairs[i].0, new_name: pairs[i].1, temp_name: t },
    ) =~= staged_prefix(pairs, temps, i + 1));
    assert(s3 == parked_state(pairs, root, created_at, path, temps, i + 1));
    assert(d3 == dir_parked(dir0, pairs, temps, (i + 1) as nat));
    assert(run_ideal(s3, d3, temps, path, 0) == (s3, d3));
    assert(run_ideal(s2, d, temps, path, 1) == (s3, d3));
    assert(run_ideal(s1, d, temps, path, 2) == (s3, d3));
}

pub open spec fn at_stage_temp(s: RunView, i: int) -> RunView {
    RunView { stage: StageView::Temp { index: i }, ..s }
}

proof fn lemma_park_all(
    dir0: Dir,
    pairs: Seq<(Seq<char>, Seq<char>)>,
    root: Seq<char>,
    created_at: Seq<char>,
    path: Seq<char>,
    temps: Seq<Seq<char>>,
    i: nat,
)
    requires
        clean_batch(dir0, pairs, temps),
        i <= pairs.len(),
    ensures
        run_ideal(
            parked_state(pairs, root, created_at, path, temps, 0),
            dir0,
            temps,
            path,
            3 * i,
        ) == (parked_state(pairs, root, created_at, path, temps, i as int), dir_parked(dir0, pairs, temps, i)),
    decreases i,
{
    if i > 0 {
        let j = (i - 1) as nat;
        lemma_park_all(dir0, pairs, root, created_at, path, temps, j);
        lemma_run_ideal_split(
            parked_state(pairs, root, created_at, path, temps, 0),
            dir0,
            temps,
            path,
            3 * j,
            3,
        );
        assert(3 * j + 3 == 3 * i);
        lemma_park_one(dir0, pairs, root, created_at, path, temps, j as int);
    }
}

proof fn lemma_dir_committed(
    dir0: Dir,
    pairs: Seq<(Seq<char>, Seq<char>)>,
    temps: Seq<Seq<char>>,
    j: nat,
)
    requires
        clean_batch(dir0, pairs, temps),
        j <= pairs.len(),
    ensures
        forall|k: int|
            j <= k < pairs.len() ==> dir_committed(dir0, pairs, temps, j).contains_key(
                #[trigger] temps[k],
            ) && dir_committed(dir0, pairs, temps, j)[temps[k]] == dir0[pairs[k].0],
        forall|k: int|
            0 <= k < j ==> dir_committed(dir0, pairs, temps, j).contains_key(#[trigger] pairs[k].1)
                && dir_committed(dir0, pairs, temps, j)[pairs[k].1] == dir0[pairs[k].0],
        forall|k: int|
            0 <= k < j ==> !dir_committed(dir0, pairs, temps, j).contains_key(#[trigger] temps[k]),
        forall|x: Seq<char>|
            !news_of(pairs).contains(x) && !temps.contains(x) ==> (dir_committed(
                dir0,
                pairs,
                temps,
                j,
            ).contains_key(x) <==> dir_parked(dir0, pairs, temps, pairs.len()).contains_key(x))
                && (dir_committed(dir0, pairs, temps, j).contains_key(x) ==> dir_committed(
                dir0,
                pairs,
                temps,
                j,
            )[x] == dir_parked(dir0, pairs, temps, pairs.len())[x]),
    decreases j,
{
    lemma_dir_parked(dir0, pairs, temps, pairs.len());
    if j > 0 {
        let i = (j - 1) as nat;
        lemma_dir_committed(dir0, pairs, temps, i);
        let t = temps[i as int];
        let nn = pairs[i as int].1;
        assert forall|k: int| j <= k < pairs.len() implies #[trigger] temps[k] != t && temps[k] != nn by {
            assert(temps[k] != pairs[i as int].1);
        }
        assert forall|k: int| 0 <= k < i implies #[trigger] pairs[k].1 != t && pairs[k].1 != nn by {
            assert(temps[i as int] != pairs[k].1);
            assert(news_of(pairs)[k] == pairs[k].1);
            assert(news_of(pairs)[i as int] == nn);
        }
        assert forall|k: int| 0 <= k < i implies #[trigger] temps[k] != t && temps[k] != nn by {
            assert(temps[k] != pairs[i as int].1);
        }
        assert forall|x: Seq<char>| !news_of(pairs).contains(x) && !temps.contains(x) implies x != t
            && x != nn by {
            assert(news_of(pairs)[i as int] == nn);
            assert(temps[i as int] == t);
        }
    }
}

proof fn lemma_commit_one(
    dir0: Dir,
    pairs: Seq<(Seq<char>, Seq<char>)>,
    root: Seq<char>,
    created_at: Seq<char>,
    path: Seq<char>,
    temps: Seq<Seq<char>>,
    j: int,
)
    requires
        clean_batch(dir0, pairs, temps),
        0 <= j < pairs.len(),
    ensures
        run_ideal(
            committed_state(pairs, root, created_at, path, temps, j),
            dir_committed(dir0, pairs, temps, j as nat),
            temps,
            path,
            1,
        ) == (
            committed_state(pairs, root, created_at, path, temps, j + 1),
            dir_committed(dir0, pairs, temps, (j + 1) as nat),
        ),
{
    lemma_dir_committed(dir0, pairs, temps, j as nat);
    let d = dir_committed(dir0, pairs, temps, j as nat);
    let s0 = committed_state(pairs, root, created_at, path, temps, j);
    let t = temps[j];
    assert(s0.staged[j].temp_name == t);
    assert(d.contains_key(t));
    let s1 = run_next(s0, ReplyView::Moved(Ok(())));
    assert(s1 == committed_state(pairs, root, created_at, path, temps, j + 1));
    let d1 = d.remove(t).insert(pairs[j].1, d[t]);
    assert(run_ideal(s1, d1, temps, path, 0) == (s1, d1));
}

proof fn lemma_commit_all(
    dir0: Dir,
    pairs: Seq<(Seq<char>, Seq<char>)>,
    root: Seq<char>,
    created_at: Seq<char>,
    path: Seq<char>,
    temps: Seq<Seq<char>>,
    j: nat,
)
    requires
        clean_batch(dir0, pairs, temps),
        j <= pairs.len(),
    ensures
        run_ideal(
            committed_state(pairs, root, created_at, path, temps, 0),
            dir_committed(dir0, pairs, temps, 0),
            temps,
            path,
            j,
        ) == (committed_state(pairs, root, created_at, path, temps, j as int), dir_committed(dir0, pairs, temps, j)),
    decreases j,
{
    if j > 0 {
        let i = (j - 1) as nat;
        lemma_commit_all(dir0, pairs, root, created_at, path, temps, i);
        lemma_run_ideal_split(
            committed_state(pairs, root, created_at, path, temps, 0),
            dir_committed(dir0, pairs, temps, 0),
            temps,
            path,
            i,
            1,
        );
        lemma_commit_one(dir0, pairs, root, created_at, path, temps, i as int);
    }
}

/// A clean batch run against a directory where every operation succeeds ends
/// without error after `4n + 2` steps, with every rename recorded as a success,
/// and leaves the directory with each new name holding the file that had the
/// matching current name, the current names that are not also new names gone, the
/// temporary names gone, and every other name as it was. Swaps (`a -> b`,
/// `b -> a`) and chains (`a -> b`, `b -> c`) are among the batches covered.
#[verifier::spinoff_prover]
pub proof fn law_clean_batch_moves_every_file(
    dir0: Dir,
    pairs: Seq<(Seq<char>, Seq<char>)>,
    temps: Seq<Seq<char>>,
    root: Seq<char>,
    created_at: Seq<char>,
    path: Seq<char>,
)
    requires
        clean_batch(dir0, pairs, temps),
    ensures
        ({
            let (sf, df) = run_ideal(
                run_start(pairs, root, created_at),
                dir0,
                temps,
                path,
                (4 * pairs.len() + 2) as nat,
            );
            &&& sf.stage == (StageView::Done { error: None })
            &&& sf.ledger_path == path
            &&& sf.entries.len() == pairs.len()
            &&& forall|k: int| 0 <= k < pairs.len() ==> (#[trigger] sf.entries[k]).status
                == EntryStatus::Success && sf.entries[k].old_name == pairs[k].0
                && sf.entries[k].new_name == pairs[k].1
            &&& count_status(sf.entries, EntryStatus::Success) == pairs.len()
            &&& count_status(sf.entries, EntryStatus::Failed) == 0
            &&& forall|k: int|
                0 <= k < pairs.len() ==> df.contains_key(#[trigger] pairs[k].1) && df[pairs[k].1]
                    == dir0[pairs[k].0]
            &&& forall|x: Seq<char>|
                !news_of(pairs).contains(x) ==> (df.contains_key(x) <==> (dir0.contains_key(x)
                    && !olds_of(pairs).contains(x)))
            &&& forall|x: Seq<char>|
                !news_of(pairs).contains(x) && df.contains_key(x) ==> df[x] == dir0[x]
        }),
{
    let n = pairs.len();
    let s0 = run_start(pairs, root, created_at);
    lemma_first_write(dir0, pairs, root, created_at, path, temps);
    lemma_park_all(dir0, pairs, root, created_at, path, temps, n);
    lemma_run_ideal_split(s0, dir0, temps, path, 1, 3 * n);
    let p_n = parked_state(pairs, root, created_at, path, temps, n as int);
    assert(p_n == committed_state(pairs, root, created_at, path, temps, 0));
    assert(dir_parked(dir0, pairs, temps, n) == dir_committed(dir0, pairs, temps, 0));
    lemma_commit_all(dir0, pairs, root, created_at, path, temps, n);
    lemma_run_ideal_split(s0, dir0, temps, path, 1 + 3 * n, n);
    let c_n = committed_state(pairs, root, created_at, path, temps, n as int);
    let d_n = dir_committed(dir0, pairs, temps, n);
    let sf = run_next(c_n, ReplyView::LedgerWritten(Ok(path)));
    assert(run_ideal(sf, d_n, temps, path, 0) == (sf, d_n));
    assert(run_ideal(c_n, d_n, temps, path, 1) == (sf, d_n));
    lemma_run_ideal_split(s0, dir0, temps, path, 1 + 3 * n + n, 1);
    assert(run_ideal(s0, dir0, temps, path, 1) == (
        parked_state(pairs, root, created_at, path, temps, 0),
        dir0,
    ));
    assert(run_ideal(s0, dir0, temps, path, (1 + 3 * n) as nat) == (p_n, dir_parked(dir0, pairs, temps, n)));
    assert(run_ideal(s0, dir0, temps, path, (1 + 3 * n + n) as nat) == (c_n, d_n));
    assert(run_ideal(s0, dir0, temps, path, (1 + 3 * n + n + 1) as nat) == (sf, d_n));
    assert(1 + 3 * n + n + 1 == 4 * n + 2);
    assert(sf.entries == committed_entries(pairs, n));
    lemma_committed_entries(pairs, n);
    lemma_count_all(sf.entries, EntryStatus::Success);
    lemma_dir_committed(dir0, pairs, temps, n);
    lemma_dir_parked(dir0, pairs, temps, n);
    assert forall|x: Seq<char>| #![trigger news_of(pairs).contains(x)] !news_of(pairs).contains(x) implies (
    d_n.contains_key(x) <==> (dir0.contains_key(x) && !olds_of(pairs).contains(x))) by {
        if temps.contains(x) {
            let k = choose|k: int| 0 <= k < temps.len() && temps[k] == x;
            assert(!d_n.contains_key(temps[k]));
            assert(!dir0.contains_key(temps[k]));
        } else if olds_of(pairs).contains(x) {
            let k = choose|k: int| 0 <= k < n && olds_of(pairs)[k] == x;
            assert(pairs[k].0 == x);
        }
    }
}

/// The batch with each pair's names exchanged.
pub open spec fn swapped(pairs: Seq<(Seq<char>, Seq<char>)>) -> Seq<(Seq<char>, Seq<char>)> {
    pairs.map_values(|p: (Seq<char>, Seq<char>)| (p.1, p.0))
}

proof fn lemma_undo_all_success(es: Seq<EntryView>, pairs: Seq<(Seq<char>, Seq<char>)>)
    requires
        es.len() == pairs.len(),
        forall|k: int|
            0 <= k < es.len() ==> (#[trigger] es[k]).status == EntryStatus::Success
                && es[k].old_name == pairs[k].0 && es[k].new_name == pairs[k].1,
    ensures
        undo_pairs(es) == swapped(pairs),
    decreases es.len(),
{
    if es.len() > 0 {
        let pe = es.drop_last();
        let pp = pairs.drop_last();
        assert forall|k: int| 0 <= k < pe.len() implies (#[trigger] pe[k]).status == EntryStatus::Success
            && pe[k].old_name == pp[k].0 && pe[k].new_name == pp[k].1 by {
            assert(pe[k] == es[k]);
        }
        lemma_undo_all_success(pe, pp);
        assert(es.last() == es[es.len() - 1]);
        assert(swapped(pairs) =~= swapped(pp).push((pairs.last().1, pairs.last().0)));
    } else {
        assert(swapped(pairs) =~= Seq::<(Seq<char>, Seq<char>)>::empty());
    }
}

/// Rolling back a clean batch restores the directory. After a clean batch has
/// run against a directory where every operation succeeds, its ledger's
/// rollback batch is the batch with each pair's names exchanged; when no new
/// name of the batch held a file that the batch did not itself move, running the
/// rollback batch, with fresh temporary names, gives back exactly the directory
/// the batch started from.
pub proof fn law_rollback_restores_directory(
    dir0: Dir,
    pairs: Seq<(Seq<char>, Seq<char>)>,
    temps: Seq<Seq<char>>,
    back_temps: Seq<Seq<char>>,
    root: Seq<char>,
    created_at: Seq<char>,
    back_created_at: Seq<char>,
    path: Seq<char>,
    back_path: Seq<char>,
)
    requires
        clean_batch(dir0, pairs, temps),
        forall|k: int|
            0 <= k < pairs.len() && !olds_of(pairs).contains(#[trigger] pairs[k].1)
                ==> !dir0.contains_key(pairs[k].1),
        back_temps.len() == pairs.len(),
        all_distinct(back_temps),
        forall|k: int| 0 <= k < back_temps.len() ==> !dir0.contains_key(#[trigger] back_temps[k]),
        forall|k: int, m: int|
            0 <= k < back_temps.len() && 0 <= m < pairs.len() ==> #[trigger] back_temps[k] != (
            #[trigger] pairs[m]).0 && back_temps[k] != pairs[m].1,
    ensures
        ({
            let n = (4 * pairs.len() + 2) as nat;
            let (s1, d1) = run_ideal(run_start(pairs, root, created_at), dir0, temps, path, n);
            let back = undo_pairs(s1.entries);
            let (s2, d2) = run_ideal(
                run_start(back, root, back_created_at),
                d1,
                back_temps,
                back_path,
                n,
            );
            &&& back == swapped(pairs)
            &&& s2.stage == (StageView::Done { error: None })
            &&& d2 == dir0
        }),
{
    let n = pairs.len();
    let steps = (4 * n + 2) as nat;
    law_clean_batch_moves_every_file(dir0, pairs, temps, root, created_at, path);
    let (s1, d1) = run_ideal(run_start(pairs, root, created_at), dir0, temps, path, steps);
    lemma_undo_all_success(s1.entries, pairs);
    let back = swapped(pairs);
    assert(olds_of(back) =~= news_of(pairs));
    assert(news_of(back) =~= olds_of(pairs));
    assert forall|k: int| 0 <= k < back.len() implies d1.contains_key(#[trigger] back[k].0) by {
        assert(back[k].0 == pairs[k].1);
    }
    assert forall|k: int| 0 <= k < back_temps.len() implies !d1.contains_key(#[trigger] back_temps[k]) by {
        let x = back_temps[k];
        if news_of(pairs).contains(x) {
            let m = choose|m: int| 0 <= m < n && news_of(pairs)[m] == x;
            assert(back_temps[k] != pairs[m].1);
        }
    }
    assert forall|k: int, m: int|
        0 <= k < back_temps.len() && 0 <= m < back.len() implies #[trigger] back_temps[k] != (
        #[trigger] back[m]).0 && back_temps[k] != back[m].1 by {
        assert(back[m].0 == pairs[m].1 && back[m].1 == pairs[m].0);
    }
    assert(clean_batch(d1, back, back_temps));
    law_clean_batch_moves_every_file(d1, back, back_temps, root, back_created_at, back_path);
    let (s2, d2) = run_ideal(run_start(back, root, back_created_at), d1, back_temps, back_path, steps);
    assert forall|x: Seq<char>| #[trigger] d2.contains_key(x) == dir0.contains_key(x) && (
    d2.contains_key(x) ==> d2[x] == dir0[x]) by {
        if olds_of(pairs).contains(x) {
            let k = choose|k: int| 0 <= k < n && olds_of(pairs)[k] == x;
            assert(back[k].1 == x);
            assert(d2[back[k].1] == d1[back[k].0]);
            assert(back[k].0 == pairs[k].1);
        } else {
            assert(!news_of(back).contains(x));
            if news_of(pairs).contains(x) {
                let k = choose|k: int| 0 <= k < n && news_of(pairs)[k] == x;
                assert(olds_of(back).contains(x));
                assert(!dir0.contains_key(pairs[k].1));
            }
        }
    }
    assert(d2 =~= dir0);
}


/// `es` has one entry per pair of `pairs`, with the pair's names.
pub open spec fn shaped(es: Seq<EntryView>, pairs: Seq<(Seq<char>, Seq<char>)>) -> bool {
    &&& es.len() == pairs.len()
    &&& forall|k: int|
        0 <= k < es.len() ==> (#[trigger] es[k]).old_name == pairs[k].0 && es[k].new_name
            == pairs[k].1
}

proof fn lemma_mark_at(
    es: Seq<EntryView>,
    pairs: Seq<(Seq<char>, Seq<char>)>,
    k: int,
    st: EntryStatus,
    err: Option<Seq<char>>,
)
    requires
        shaped(es, pairs),
        all_distinct(olds_of(pairs)),
        0 <= k < pairs.len(),
    ensures
        mark_entry(es, pairs[k].0, st, err) == es.update(
            k,
            EntryView { old_name: pairs[k].0, new_name: pairs[k].1, status: st, error: err },
        ),
        shaped(mark_entry(es, pairs[k].0, st, err), pairs),
{
    assert forall|a: int, b: int| 0 <= a < b < es.len() implies es[a].old_name != es[b].old_name by {
        assert(olds_of(pairs)[a] == pairs[a].0);
        assert(olds_of(pairs)[b] == pairs[b].0);
    }
    lemma_find_unique(es, pairs[k].0, k);
    let m = mark_entry(es, pairs[k].0, st, err);
    assert forall|j: int| 0 <= j < m.len() implies (#[trigger] m[j]).old_name == pairs[j].0
        && m[j].new_name == pairs[j].1 by {
        if j != k {
            assert(m[j] == es[j]);
        }
    }
}

proof fn lemma_mark_all_failed(
    es: Seq<EntryView>,
    pairs: Seq<(Seq<char>, Seq<char>)>,
    j: nat,
    r: Seq<char>,
)
    requires
        shaped(es, pairs),
        all_distinct(olds_of(pairs)),
        j <= pairs.len(),
    ensures
        shaped(mark_all_failed(es, olds_of(pairs).take(j as int), r), pairs),
        forall|k: int|
            0 <= k < j ==> (#[trigger] mark_all_failed(es, olds_of(pairs).take(j as int), r)[k]).status
                == EntryStatus::Failed && mark_all_failed(es, olds_of(pairs).take(j as int), r)[k].error
                == Some(r),
        forall|k: int|
            j <= k < pairs.len() ==> #[trigger] mark_all_failed(es, olds_of(pairs).take(j as int), r)[k]
                == es[k],
    decreases j,
{
    let olds = olds_of(pairs);
    if j == 0 {
        assert(olds.take(0).len() == 0);
    } else {
        let i = (j - 1) as nat;
        lemma_mark_all_failed(es, pairs, i, r);
        assert(olds.take(j as int).drop_last() =~= olds.take(i as int));
        assert(olds.take(j as int).last() == pairs[i as int].0);
        let prev = mark_all_failed(es, olds.take(i as int), r);
        lemma_mark_at(prev, pairs, i as int, EntryStatus::Failed, Some(r));
    }
}

/// The first phase after it failed, from pair `i` on: each remaining pair is
/// marked as not run, and the run goes on to its final ledger write.
proof fn lemma_scan_abandoned(y: RunView, i: int)
    requires
        !y.phase1_ok,
        y.staged.len() == 0,
        0 <= i <= y.pairs.len(),
        all_distinct(olds_of(y.pairs)),
        shaped(y.entries, y.pairs),
    ensures
        scan_from(y, i) == (RunView {
            entries: scan_from(y, i).entries,
            stage: StageView::WriteLast,
            ..y
        }),
        shaped(scan_from(y, i).entries, y.pairs),
        forall|k: int| 0 <= k < i ==> #[trigger] scan_from(y, i).entries[k] == y.entries[k],
        forall|k: int|
            i <= k < y.pairs.len() ==> (#[trigger] scan_from(y, i).entries[k]).status
                == EntryStatus::Failed && scan_from(y, i).entries[k].error == Some(MSG_NOT_RUN@),
    decreases y.pairs.len() - i,
{
    if i < y.pairs.len() {
        let es1 = mark_entry(y.entries, y.pairs[i].0, EntryStatus::Failed, Some(MSG_NOT_RUN@));
        lemma_mark_at(y.entries, y.pairs, i, EntryStatus::Failed, Some(MSG_NOT_RUN@));
        let y1 = RunView { entries: es1, ..y };
        lemma_scan_abandoned(y1, i + 1);
    }
}

/// Moving the temporary name of pair `i - 1` back to its current name undoes
/// the move that parked it.
proof fn lemma_unpark(dir0: Dir, pairs: Seq<(Seq<char>, Seq<char>)>, temps: Seq<Seq<char>>, i: nat)
    requires
        clean_batch(dir0, pairs, temps),
        1 <= i <= pairs.len(),
    ensures
        ({
            let d = dir_parked(dir0, pairs, temps, i);
            let t = temps[i - 1];
            &&& d.contains_key(t)
            &&& d.remove(t).insert(pairs[i - 1].0, d[t]) == dir_parked(
                dir0,
                pairs,
                temps,
                (i - 1) as nat,
            )
        }),
{
    let j = (i - 1) as nat;
    lemma_dir_parked(dir0, pairs, temps, j);
    let p = dir_parked(dir0, pairs, temps, j);
    let o = pairs[j as int].0;
    let t = temps[j as int];
    assert(p.contains_key(o));
    assert(!p.contains_key(t));
    assert(t != o);
    let d = dir_parked(dir0, pairs, temps, i);
    assert(d == p.remove(o).insert(t, p[o]));
    assert(d.remove(t).insert(o, d[t]) =~= p);
}

/// The run just before pair `f` moves to its temporary name.
pub open spec fn before_park(
    pairs: Seq<(Seq<char>, Seq<char>)>,
    root: Seq<char>,
    created_at: Seq<char>,
    path: Seq<char>,
    temps: Seq<Seq<char>>,
    f: int,
) -> RunView {
    RunView {
        stage: StageView::Park { index: f, temp: temps[f] },
        ..parked_state(pairs, root, created_at, path, temps, f)
    }
}

proof fn lemma_restore_chain(
    dir0: Dir,
    pairs: Seq<(Seq<char>, Seq<char>)>,
    temps: Seq<Seq<char>>,
    path: Seq<char>,
    a: RunView,
    f: int,
    e: Seq<char>,
    k: int,
)
    requires
        clean_batch(dir0, pairs, temps),
        0 <= k <= f < pairs.len(),
        a.pairs == pairs,
        a.staged == staged_prefix(pairs, temps, f),
    ensures
        run_ideal(
            restore_from(a, f, e, f),
            dir_parked(dir0, pairs, temps, f as nat),
            temps,
            path,
            (f - k) as nat,
        ) == (restore_from(a, f, e, k), dir_parked(dir0, pairs, temps, k as nat)),
    decreases f - k,
{
    if k < f {
        lemma_restore_chain(dir0, pairs, temps, path, a, f, e, k + 1);
        lemma_run_ideal_split(
            restore_from(a, f, e, f),
            dir_parked(dir0, pairs, temps, f as nat),
            temps,
            path,
            (f - k - 1) as nat,
            1,
        );
        assert((f - k - 1) as nat + 1 == (f - k) as nat);
        let r = restore_from(a, f, e, k + 1);
        assert(r == at_stage(a, StageView::Restore { index: f, error: e, left: k + 1 }));
        assert(r.staged[k].temp_name == temps[k] && r.staged[k].old_name == pairs[k].0);
        lemma_unpark(dir0, pairs, temps, (k + 1) as nat);
        let d = dir_parked(dir0, pairs, temps, (k + 1) as nat);
        let next = run_next(r, ReplyView::Moved(Ok(())));
        assert(next == restore_from(r, f, e, k));
        lemma_restore_from_any_stage(r, a, f, e, k);
        let d1 = dir_parked(dir0, pairs, temps, k as nat);
        assert(run_ideal(next, d1, temps, path, 0) == (next, d1));
        assert(run_ideal(r, d, temps, path, 1) == (next, d1));
    }
}

/// A failed move to a temporary name undoes the first phase. When every
/// operation on the directory succeeds except the move of pair `f` to its
/// temporary name, which fails with `e`, the files already moved to temporary
/// names are moved back (the last one first), no file is renamed, and the run
/// ends without error after its final ledger write: the directory is exactly as
/// it was, every entry is recorded as failed, the entries before `f` as moved
/// back, entry `f` with `e`, and the entries after `f` as not run.
pub proof fn law_first_phase_failure_restores_directory(
    dir0: Dir,
    pairs: Seq<(Seq<char>, Seq<char>)>,
    temps: Seq<Seq<char>>,
    root: Seq<char>,
    created_at: Seq<char>,
    path: Seq<char>,
    f: int,
    e: Seq<char>,
)
    requires
        clean_batch(dir0, pairs, temps),
        0 <= f < pairs.len(),
    ensures
        ({
            let (s1, d1) = run_ideal(
                run_start(pairs, root, created_at),
                dir0,
                temps,
                path,
                (3 * f + 3) as nat,
            );
            let s2 = run_next(s1, ReplyView::Moved(Err(e)));
            let (s3, d3) = run_ideal(s2, d1, temps, path, (f + 1) as nat);
            &&& run_step(s1) == (StepView::Move { from: pairs[f].0, to: temps[f] })
            &&& s3.stage == (StageView::Done { error: None })
            &&& d3 == dir0
            &&& s3.entries.len() == pairs.len()
            &&& forall|k: int|
                0 <= k < pairs.len() ==> (#[trigger] s3.entries[k]).status == EntryStatus::Failed
                    && s3.entries[k].old_name == pairs[k].0 && s3.entries[k].new_name == pairs[k].1
            &&& forall|k: int| 0 <= k < f ==> (#[trigger] s3.entries[k]).error == Some(MSG_ROLLED_BACK@)
            &&& s3.entries[f].error == Some(e)
            &&& forall|k: int|
                f < k < pairs.len() ==> (#[trigger] s3.entries[k]).error == Some(MSG_NOT_RUN@)
        }),
{
    let n = pairs.len();
    let s0 = run_start(pairs, root, created_at);
    // The ledger is written and the first `f` pairs are parked.
    lemma_first_write(dir0, pairs, root, created_at, path, temps);
    lemma_park_all(dir0, pairs, root, created_at, path, temps, f as nat);
    lemma_run_ideal_split(s0, dir0, temps, path, 1, (3 * f) as nat);
    let pf = parked_state(pairs, root, created_at, path, temps, f);
    let df = dir_parked(dir0, pairs, temps, f as nat);
    assert(run_ideal(s0, dir0, temps, path, (1 + 3 * f) as nat) == (pf, df));
    // Pair `f` is checked and given its temporary name.
    lemma_dir_parked(dir0, pairs, temps, f as nat);
    assert(df.contains_key(pairs[f].0));
    let pt = at_stage_temp(pf, f);
    assert(run_next(pf, ReplyView::SourceChecked(true)) == pt);
    let bp = before_park(pairs, root, created_at, path, temps, f);
    assert(run_next(pt, ReplyView::TempName(temps[f])) == bp);
    assert(run_ideal(bp, df, temps, path, 0) == (bp, df));
    assert(run_ideal(pt, df, temps, path, 1) == (bp, df));
    assert(run_ideal(pf, df, temps, path, 2) == (bp, df));
    lemma_run_ideal_split(s0, dir0, temps, path, (1 + 3 * f) as nat, 2);
    assert((1 + 3 * f) as nat + 2 == (3 * f + 3) as nat);
    assert(run_ideal(s0, dir0, temps, path, (3 * f + 3) as nat) == (bp, df));
    // The move fails: the staged files go back, the last one first.
    let a = RunView { phase1_ok: false, ..bp };
    let s2 = run_next(bp, ReplyView::Moved(Err(e)));
    assert(s2 == restore_from(a, f, e, f));
    lemma_restore_chain(dir0, pairs, temps, path, a, f, e, 0);
    assert(dir_parked(dir0, pairs, temps, 0) == dir0);
    let r0 = restore_from(a, f, e, 0);
    // The entries are marked, and the remaining pairs are not run.
    assert(a.entries == planned_entries(pairs));
    assert(shaped(planned_entries(pairs), pairs));
    let es1 = mark_entry(a.entries, pairs[f].0, EntryStatus::Failed, Some(e));
    lemma_mark_at(a.entries, pairs, f, EntryStatus::Failed, Some(e));
    assert(staged_prefix(pairs, temps, f).map_values(|t: StagedView| t.old_name) =~= olds_of(
        pairs,
    ).take(f));
    let es2 = mark_all_failed(es1, olds_of(pairs).take(f), MSG_ROLLED_BACK@);
    lemma_mark_all_failed(es1, pairs, f as nat, MSG_ROLLED_BACK@);
    let y = RunView { entries: es2, staged: Seq::empty(), ..a };
    assert(r0 == scan_from(y, f + 1));
    lemma_scan_abandoned(y, f + 1);
    // The final ledger write ends the run.
    let sf = run_next(r0, ReplyView::LedgerWritten(Ok(path)));
    assert(run_ideal(sf, dir0, temps, path, 0) == (sf, dir0));
    assert(run_ideal(r0, dir0, temps, path, 1) == (sf, dir0));
    lemma_run_ideal_split(s2, df, temps, path, f as nat, 1);
    assert(run_ideal(s2, df, temps, path, (f + 1) as nat) == (sf, dir0));
    assert(sf.entries == r0.entries);
    assert forall|k: int| 0 <= k < n implies (#[trigger] sf.entries[k]).status == EntryStatus::Failed
        && sf.entries[k].old_name == pairs[k].0 && sf.entries[k].new_name == pairs[k].1 by {
        if k <= f {
            assert(sf.entries[k] == es2[k]);
            if k == f {
                assert(es2[k] == es1[k]);
            }
        }
    }
    assert forall|k: int| 0 <= k < f implies (#[trigger] sf.entries[k]).error == Some(
        MSG_ROLLED_BACK@,
    ) by {
        assert(sf.entries[k] == es2[k]);
    }
    assert(sf.entries[f] == es2[f]);
    assert(es2[f] == es1[f]);
}


/// The run after it is told `replies`, one after the other.
pub open spec fn run_replies(s: RunView, replies: Seq<ReplyView>) -> RunView
    decreases replies.len(),
{
    if replies.len() == 0 {
        s
    } else {
        run_next(run_replies(s, replies.drop_last()), replies.last())
    }
}

proof fn lemma_mark_entry_shaped(
    es: Seq<EntryView>,
    pairs: Seq<(Seq<char>, Seq<char>)>,
    o: Seq<char>,
    st: EntryStatus,
    err: Option<Seq<char>>,
)
    requires
        shaped(es, pairs),
    ensures
        shaped(mark_entry(es, o, st, err), pairs),
{
    lemma_find_entry_bounds(es, o);
    let m = mark_entry(es, o, st, err);
    let k = find_entry(es, o);
    assert forall|j: int| 0 <= j < m.len() implies (#[trigger] m[j]).old_name == pairs[j].0
        && m[j].new_name == pairs[j].1 by {
        if j != k {
            assert(m[j] == es[j]);
        }
    }
}

proof fn lemma_mark_all_failed_shaped(
    es: Seq<EntryView>,
    pairs: Seq<(Seq<char>, Seq<char>)>,
    olds: Seq<Seq<char>>,
    r: Seq<char>,
)
    requires
        shaped(es, pairs),
    ensures
        shaped(mark_all_failed(es, olds, r), pairs),
    decreases olds.len(),
{
    if olds.len() > 0 {
        lemma_mark_all_failed_shaped(es, pairs, olds.drop_last(), r);
        lemma_mark_entry_shaped(
            mark_all_failed(es, olds.drop_last(), r),
            pairs,
            olds.last(),
            EntryStatus::Failed,
            Some(r),
        );
    }
}

proof fn lemma_scan_from_shaped(s: RunView, i: int)
    requires
        shaped(s.entries, s.pairs),
    ensures
        scan_from(s, i).pairs == s.pairs,
        shaped(scan_from(s, i).entries, s.pairs),
    decreases s.pairs.len() - i,
{
    if 0 <= i < s.pairs.len() && !s.phase1_ok {
        let es1 = mark_entry(s.entries, s.pairs[i].0, EntryStatus::Failed, Some(MSG_NOT_RUN@));
        lemma_mark_entry_shaped(s.entries, s.pairs, s.pairs[i].0, EntryStatus::Failed, Some(MSG_NOT_RUN@));
        lemma_scan_from_shaped(RunView { entries: es1, ..s }, i + 1);
    }
}

proof fn lemma_restore_from_shaped(s: RunView, i: int, e: Seq<char>, k: int)
    requires
        shaped(s.entries, s.pairs),
    ensures
        restore_from(s, i, e, k).pairs == s.pairs,
        shaped(restore_from(s, i, e, k).entries, s.pairs),
{
    if k <= 0 {
        let es1 = mark_entry(s.entries, s.pairs[i].0, EntryStatus::Failed, Some(e));
        lemma_mark_entry_shaped(s.entries, s.pairs, s.pairs[i].0, EntryStatus::Failed, Some(e));
        let olds = s.staged.map_values(|t: StagedView| t.old_name);
        lemma_mark_all_failed_shaped(es1, s.pairs, olds, MSG_ROLLED_BACK@);
        let es2 = mark_all_failed(es1, olds, MSG_ROLLED_BACK@);
        lemma_scan_from_shaped(RunView { entries: es2, staged: Seq::empty(), ..s }, i + 1);
    }
}

proof fn lemma_run_next_shaped(s: RunView, reply: ReplyView)
    requires
        shaped(s.entries, s.pairs),
    ensures
        run_next(s, reply).pairs == s.pairs,
        shaped(run_next(s, reply).entries, s.pairs),
{
    match (s.stage, reply) {
        (StageView::WriteFirst, ReplyView::LedgerWritten(Ok(path))) => {
            lemma_scan_from_shaped(RunView { ledger_path: path, ..s }, 0);
        },
        (StageView::Check { index }, ReplyView::SourceChecked(is_file)) => {
            if !is_file {
                let es1 = mark_entry(
                    s.entries,
                    s.pairs[index].0,
                    EntryStatus::Failed,
                    Some(MSG_SOURCE_GONE@),
                );
                lemma_mark_entry_shaped(
                    s.entries,
                    s.pairs,
                    s.pairs[index].0,
                    EntryStatus::Failed,
                    Some(MSG_SOURCE_GONE@),
                );
                lemma_scan_from_shaped(RunView { entries: es1, ..s }, index + 1);
            }
        },
        (StageView::Park { index, temp }, ReplyView::Moved(Ok(()))) => {
            lemma_scan_from_shaped(
                RunView {
                    staged: s.staged.push(
                        StagedView {
                            old_name: s.pairs[index].0,
                            new_name: s.pairs[index].1,
                            temp_name: temp,
                        },
                    ),
                    ..s
                },
                index + 1,
            );
        },
        (StageView::Park { index, .. }, ReplyView::Moved(Err(e))) => {
            lemma_restore_from_shaped(
                RunView { phase1_ok: false, ..s },
                index,
                e,
                s.staged.len() as int,
            );
        },
        (StageView::Restore { index, error, left }, ReplyView::Moved(_)) => {
            lemma_restore_from_shaped(s, index, error, left - 1);
        },
        (StageView::Commit { index }, ReplyView::Moved(Ok(()))) => {
            lemma_mark_entry_shaped(
                s.entries,
                s.pairs,
                s.staged[index].old_name,
                EntryStatus::Success,
                None,
            );
        },
        (StageView::Revert { index, error }, ReplyView::Moved(Ok(()))) => {
            lemma_mark_entry_shaped(
                s.entries,
                s.pairs,
                s.staged[index].old_name,
                EntryStatus::Failed,
                Some(error),
            );
        },
        (StageView::Revert { index, error }, ReplyView::Moved(Err(back))) => {
            lemma_mark_entry_shaped(
                s.entries,
                s.pairs,
                s.staged[index].old_name,
                EntryStatus::Failed,
                Some(error + MSG_CANNOT_RESTORE@ + back),
            );
        },
        _ => {},
    }
}

/// The ledger follows the batch, whatever happens on the disk. Whatever replies
/// a run gets, its batch stays the same and its ledger keeps exactly one entry
/// per pair, in the batch's order, with the pair's current and new names; only
/// the entries' statuses and errors change.
pub proof fn law_ledger_entries_follow_pairs(
    pairs: Seq<(Seq<char>, Seq<char>)>,
    root: Seq<char>,
    created_at: Seq<char>,
    replies: Seq<ReplyView>,
)
    ensures
        ({
            let s = run_replies(run_start(pairs, root, created_at), replies);
            &&& s.pairs == pairs
            &&& s.entries.len() == pairs.len()
            &&& forall|k: int|
                0 <= k < pairs.len() ==> (#[trigger] s.entries[k]).old_name == pairs[k].0
                    && s.entries[k].new_name == pairs[k].1
        }),
    decreases replies.len(),
{
    if replies.len() > 0 {
        law_ledger_entries_follow_pairs(pairs, root, created_at, replies.drop_last());
        let prev = run_replies(run_start(pairs, root, created_at), replies.drop_last());
        lemma_run_next_shaped(prev, replies.last());
    } else {
        assert(shaped(planned_entries(pairs), pairs));
    }
}


/// The temporary names that `replies` hand to a run.
pub open spec fn temps_given(replies: Seq<ReplyView>) -> Set<Seq<char>> {
    Set::new(
        |x: Seq<char>|
            exists|k: int| 0 <= k < replies.len() && #[trigger] replies[k] == ReplyView::TempName(x),
    )
}

/// A name of the batch `pairs` (a current or a new name), or one of the
/// temporary names `given`.
pub open spec fn batch_name(pairs: Seq<(Seq<char>, Seq<char>)>, given: Set<Seq<char>>, x: Seq<char>) -> bool {
    olds_of(pairs).contains(x) || news_of(pairs).contains(x) || given.contains(x)
}

/// What a run keeps while it goes: its stage refers to pairs and staged files
/// that exist, each staged file has the names of a pair and a temporary name it
/// was given, and so has the file it is about to park.
pub open spec fn touches_only_batch(s: RunView, pairs: Seq<(Seq<char>, Seq<char>)>, given: Set<Seq<char>>) -> bool {
    &&& s.pairs == pairs
    &&& crate::rename::run_wf(s)
    &&& forall|m: int|
        0 <= m < s.staged.len() ==> olds_of(pairs).contains((#[trigger] s.staged[m]).old_name)
            && news_of(pairs).contains(s.staged[m].new_name) && given.contains(s.staged[m].temp_name)
    &&& (s.stage matches StageView::Park { temp, .. } ==> given.contains(temp))
}

proof fn lemma_pair_names(pairs: Seq<(Seq<char>, Seq<char>)>, i: int)
    requires
        0 <= i < pairs.len(),
    ensures
        olds_of(pairs).contains(pairs[i].0),
        news_of(pairs).contains(pairs[i].1),
{
    assert(olds_of(pairs)[i] == pairs[i].0);
    assert(news_of(pairs)[i] == pairs[i].1);
}

proof fn lemma_scan_from_fields(s: RunView, i: int)
    ensures
        scan_from(s, i).pairs == s.pairs,
        scan_from(s, i).staged == s.staged,
    decreases s.pairs.len() - i,
{
    if 0 <= i < s.pairs.len() && !s.phase1_ok {
        let s1 = RunView {
            entries: mark_entry(s.entries, s.pairs[i].0, EntryStatus::Failed, Some(MSG_NOT_RUN@)),
            ..s
        };
        lemma_scan_from_fields(s1, i + 1);
    }
}

proof fn lemma_staged_touch(a: RunView, b: RunView, pairs: Seq<(Seq<char>, Seq<char>)>, given: Set<Seq<char>>)
    requires
        touches_only_batch(a, pairs, given),
        b.staged == a.staged,
    ensures
        forall|m: int|
            0 <= m < b.staged.len() ==> olds_of(pairs).contains((#[trigger] b.staged[m]).old_name)
                && news_of(pairs).contains(b.staged[m].new_name) && given.contains(b.staged[m].temp_name),
{
    assert forall|m: int| 0 <= m < b.staged.len() implies olds_of(pairs).contains(
        (#[trigger] b.staged[m]).old_name,
    ) && news_of(pairs).contains(b.staged[m].new_name) && given.contains(b.staged[m].temp_name) by {
        assert(b.staged[m] == a.staged[m]);
    }
}

proof fn lemma_scan_from_touches(s: RunView, pairs: Seq<(Seq<char>, Seq<char>)>, given: Set<Seq<char>>, i: int)
    requires
        touches_only_batch(at_stage(s, StageView::WriteLast), pairs, given),
    ensures
        touches_only_batch(scan_from(s, i), pairs, given),
{
    lemma_scan_from_fields(s, i);
    lemma_staged_touch(at_stage(s, StageView::WriteLast), scan_from(s, i), pairs, given);
    lemma_scan_from_stage(s, i);
}

proof fn lemma_scan_from_stage(s: RunView, i: int)
    ensures
        crate::rename::run_wf(RunView { pairs: s.pairs, staged: s.staged, ..scan_from(s, i) }),
        !(scan_from(s, i).stage is Park),
    decreases s.pairs.len() - i,
{
    if 0 <= i < s.pairs.len() && !s.phase1_ok {
        let s1 = RunView {
            entries: mark_entry(s.entries, s.pairs[i].0, EntryStatus::Failed, Some(MSG_NOT_RUN@)),
            ..s
        };
        lemma_scan_from_stage(s1, i + 1);
    }
}

proof fn lemma_restore_from_touches(
    s: RunView,
    pairs: Seq<(Seq<char>, Seq<char>)>,
    given: Set<Seq<char>>,
    i: int,
    e: Seq<char>,
    k: int,
)
    requires
        touches_only_batch(at_stage(s, StageView::WriteLast), pairs, given),
        0 <= i < pairs.len(),
        k <= s.staged.len(),
    ensures
        touches_only_batch(restore_from(s, i, e, k), pairs, given),
{
    if k <= 0 {
        let es1 = mark_entry(s.entries, s.pairs[i].0, EntryStatus::Failed, Some(e));
        let es2 = mark_all_failed(es1, s.staged.map_values(|t: StagedView| t.old_name), MSG_ROLLED_BACK@);
        let s1 = RunView { entries: es2, staged: Seq::empty(), ..s };
        assert(touches_only_batch(at_stage(s1, StageView::WriteLast), pairs, given));
        lemma_scan_from_touches(s1, pairs, given, i + 1);
    } else {
        lemma_staged_touch(at_stage(s, StageView::WriteLast), restore_from(s, i, e, k), pairs, given);
    }
}

proof fn lemma_run_next_touches(
    s: RunView,
    pairs: Seq<(Seq<char>, Seq<char>)>,
    given: Set<Seq<char>>,
    given2: Set<Seq<char>>,
    reply: ReplyView,
)
    requires
        touches_only_batch(s, pairs, given),
        given.subset_of(given2),
        reply matches ReplyView::TempName(t) ==> given2.contains(t),
    ensures
        touches_only_batch(run_next(s, reply), pairs, given2),
{
    assert(touches_only_batch(s, pairs, given2));
    let w = at_stage(s, StageView::WriteLast);
    match (s.stage, reply) {
        (StageView::WriteFirst, ReplyView::LedgerWritten(Ok(path))) => {
            lemma_scan_from_touches(RunView { ledger_path: path, ..s }, pairs, given2, 0);
        },
        (StageView::Check { index }, ReplyView::SourceChecked(is_file)) => {
            if !is_file {
                let s1 = with_entries_failed(s, index, MSG_SOURCE_GONE@);
                lemma_scan_from_touches(s1, pairs, given2, index + 1);
            }
        },
        (StageView::Park { index, temp }, ReplyView::Moved(Ok(()))) => {
            lemma_pair_names(pairs, index);
            let st = StagedView { old_name: s.pairs[index].0, new_name: s.pairs[index].1, temp_name: temp };
            let s1 = RunView { staged: s.staged.push(st), ..s };
            assert forall|m: int| 0 <= m < s1.staged.len() implies olds_of(pairs).contains(
                (#[trigger] s1.staged[m]).old_name,
            ) && news_of(pairs).contains(s1.staged[m].new_name) && given2.contains(
                s1.staged[m].temp_name,
            ) by {
                if m < s.staged.len() {
                    assert(s1.staged[m] == s.staged[m]);
                }
            }
            lemma_scan_from_touches(s1, pairs, given2, index + 1);
        },
        (StageView::Park { index, .. }, ReplyView::Moved(Err(e))) => {
            lemma_restore_from_touches(
                RunView { phase1_ok: false, ..s },
                pairs,
                given2,
                index,
                e,
                s.staged.len() as int,
            );
        },
        (StageView::Restore { index, error, left }, ReplyView::Moved(_)) => {
            lemma_restore_from_touches(s, pairs, given2, index, error, left - 1);
        },
        _ => {},
    }
}

pub open spec fn with_entries_failed(s: RunView, i: int, reason: Seq<char>) -> RunView {
    RunView {
        entries: mark_entry(s.entries, s.pairs[i].0, EntryStatus::Failed, Some(reason)),
        ..s
    }
}

/// A run only touches the names of its batch. Whatever replies it gets, every
/// name that a run asks to be checked is a current name of its batch, and every
/// rename it asks for moves a current name or a temporary name that it was given
/// to a current name, a new name or a temporary name that it was given; no other
/// entry of the directory is ever named.
pub proof fn law_run_touches_only_batch_names(
    pairs: Seq<(Seq<char>, Seq<char>)>,
    root: Seq<char>,
    created_at: Seq<char>,
    replies: Seq<ReplyView>,
)
    ensures
        ({
            let s = run_replies(run_start(pairs, root, created_at), replies);
            let given = temps_given(replies);
            &&& (run_step(s) matches StepView::CheckSource { name } ==> olds_of(pairs).contains(name))
            &&& (run_step(s) matches StepView::Move { from, to } ==> (olds_of(pairs).contains(from)
                || given.contains(from)) && batch_name(pairs, given, to))
        }),
{
    lemma_touches(pairs, root, created_at, replies);
    let s = run_replies(run_start(pairs, root, created_at), replies);
    let given = temps_given(replies);
    match s.stage {
        StageView::Check { index } => {
            lemma_pair_names(pairs, index);
        },
        StageView::Park { index, temp } => {
            lemma_pair_names(pairs, index);
        },
        StageView::Restore { left, .. } => {
            assert(s.staged[left - 1] == s.staged[left - 1]);
        },
        StageView::Commit { index } => {
            assert(s.staged[index] == s.staged[index]);
        },
        StageView::Revert { index, .. } => {
            assert(s.staged[index] == s.staged[index]);
        },
        _ => {},
    }
}

proof fn lemma_touches(
    pairs: Seq<(Seq<char>, Seq<char>)>,
    root: Seq<char>,
    created_at: Seq<char>,
    replies: Seq<ReplyView>,
)
    ensures
        touches_only_batch(
            run_replies(run_start(pairs, root, created_at), replies),
            pairs,
            temps_given(replies),
        ),
    decreases replies.len(),
{
    if replies.len() > 0 {
        let prev = replies.drop_last();
        lemma_touches(pairs, root, created_at, prev);
        let g1 = temps_given(prev);
        let g2 = temps_given(replies);
        assert forall|x: Seq<char>| g1.contains(x) implies g2.contains(x) by {
            let k = choose|k: int| 0 <= k < prev.len() && #[trigger] prev[k] == ReplyView::TempName(x);
            assert(replies[k] == prev[k]);
        }
        match replies.last() {
            ReplyView::TempName(t) => {
                assert(replies[replies.len() - 1] == ReplyView::TempName(t));
                assert(g2.contains(t));
            },
            _ => {},
        }
        lemma_run_next_touches(
            run_replies(run_start(pairs, root, created_at), prev),
            pairs,
            g1,
            g2,
            replies.last(),
        );
    }
}


/// An entry whose fate is known: a success without error, or a failure with
/// its reason.
pub open spec fn decided(e: EntryView) -> bool {
    (e.status == EntryStatus::Success && e.error is None) || (e.status == EntryStatus::Failed
        && e.error is Some)
}

/// The current names of the files that a run has parked.
pub open spec fn staged_olds(s: RunView) -> Seq<Seq<char>> {
    s.staged.map_values(|t: StagedView| t.old_name)
}

/// Whether entry `k` of run `s` may still be planned: in the first phase, the
/// pairs not reached yet and the parked files; in the second phase, the parked
/// files not yet committed; once the final ledger is written without error,
/// none.
pub open spec fn may_be_planned(s: RunView, k: int) -> bool {
    match s.stage {
        StageView::WriteFirst => true,
        StageView::Check { index } => k >= index || staged_olds(s).contains(s.pairs[k].0),
        StageView::Temp { index } => k >= index || staged_olds(s).contains(s.pairs[k].0),
        StageView::Park { index, .. } => k >= index || staged_olds(s).contains(s.pairs[k].0),
        StageView::Restore { index, .. } => k >= index || staged_olds(s).contains(s.pairs[k].0),
        StageView::Commit { index } => staged_olds(s).skip(index).contains(s.pairs[k].0),
        StageView::Revert { index, .. } => staged_olds(s).skip(index).contains(s.pairs[k].0),
        StageView::WriteLast => false,
        StageView::Done { error } => error is Some,
    }
}

/// Every entry of `s` is decided or may still be planned.
pub open spec fn entries_settled(s: RunView) -> bool {
    forall|k: int|
        0 <= k < s.entries.len() ==> if (#[trigger] s.entries[k]).status == EntryStatus::Planned {
            may_be_planned(s, k)
        } else {
            decided(s.entries[k])
        }
}

/// What a run keeps that the proofs of this part rely on.
pub open spec fn run_ok(s: RunView) -> bool {
    &&& shaped(s.entries, s.pairs)
    &&& all_distinct(olds_of(s.pairs))
    &&& crate::rename::run_wf(s)
    &&& forall|m: int| 0 <= m < s.staged.len() ==> olds_of(s.pairs).contains(#[trigger] staged_olds(s)[m])
}

proof fn lemma_run_ok_transfer(a: RunView, b: RunView)
    requires
        run_ok(a),
        b.pairs == a.pairs,
        b.staged == a.staged || b.staged.len() == 0,
        shaped(b.entries, b.pairs),
        crate::rename::run_wf(b),
    ensures
        run_ok(b),
{
    if b.staged == a.staged {
        assert(staged_olds(b) == staged_olds(a));
    }
}

proof fn lemma_mark_by_name(
    es: Seq<EntryView>,
    pairs: Seq<(Seq<char>, Seq<char>)>,
    name: Seq<char>,
    st: EntryStatus,
    err: Option<Seq<char>>,
)
    requires
        shaped(es, pairs),
        all_distinct(olds_of(pairs)),
    ensures
        shaped(mark_entry(es, name, st, err), pairs),
        forall|j: int|
            0 <= j < es.len() ==> #[trigger] mark_entry(es, name, st, err)[j] == if pairs[j].0
                == name {
                EntryView { old_name: pairs[j].0, new_name: pairs[j].1, status: st, error: err }
            } else {
                es[j]
            },
{
    lemma_mark_entry_shaped(es, pairs, name, st, err);
    lemma_find_entry_bounds(es, name);
    let f = find_entry(es, name);
    let m = mark_entry(es, name, st, err);
    assert forall|j: int| 0 <= j < es.len() implies #[trigger] m[j] == if pairs[j].0 == name {
        EntryView { old_name: pairs[j].0, new_name: pairs[j].1, status: st, error: err }
    } else {
        es[j]
    } by {
        if pairs[j].0 == name {
            assert(es[j].old_name == name);
            assert(f <= j);
            if f < j {
                assert(olds_of(pairs)[f] == pairs[f].0);
                assert(olds_of(pairs)[j] == pairs[j].0);
            }
        } else if j == f {
            assert(es[f].old_name == name);
        }
    }
}

proof fn lemma_mark_all_by_name(
    es: Seq<EntryView>,
    pairs: Seq<(Seq<char>, Seq<char>)>,
    olds: Seq<Seq<char>>,
    r: Seq<char>,
)
    requires
        shaped(es, pairs),
        all_distinct(olds_of(pairs)),
    ensures
        shaped(mark_all_failed(es, olds, r), pairs),
        forall|j: int|
            0 <= j < es.len() ==> #[trigger] mark_all_failed(es, olds, r)[j] == if olds.contains(
                pairs[j].0,
            ) {
                EntryView {
                    old_name: pairs[j].0,
                    new_name: pairs[j].1,
                    status: EntryStatus::Failed,
                    error: Some(r),
                }
            } else {
                es[j]
            },
    decreases olds.len(),
{
    if olds.len() > 0 {
        let p = olds.drop_last();
        lemma_mark_all_by_name(es, pairs, p, r);
        let prev = mark_all_failed(es, p, r);
        lemma_mark_by_name(prev, pairs, olds.last(), EntryStatus::Failed, Some(r));
        assert forall|j: int| 0 <= j < es.len() implies (olds.contains(pairs[j].0) <==> (p.contains(
            pairs[j].0,
        ) || pairs[j].0 == olds.last())) by {
            if olds.contains(pairs[j].0) {
                let i = choose|i: int| 0 <= i < olds.len() && olds[i] == pairs[j].0;
                if i < p.len() {
                    assert(p[i] == olds[i]);
                }
            }
            if p.contains(pairs[j].0) {
                let i = choose|i: int| 0 <= i < p.len() && p[i] == pairs[j].0;
                assert(olds[i] == p[i]);
            }
            assert(olds[olds.len() - 1] == olds.last());
        }
    } else {
        assert forall|j: int| 0 <= j < es.len() implies !olds.contains(#[trigger] pairs[j].0) by {}
    }
}

proof fn lemma_skip_contains(v: Seq<Seq<char>>, j: int, x: Seq<char>)
    requires
        0 <= j < v.len(),
        v.skip(j).contains(x),
        x != v[j],
    ensures
        v.skip(j + 1).contains(x),
{
    let i = choose|i: int| 0 <= i < v.skip(j).len() && v.skip(j)[i] == x;
    assert(i != 0);
    assert(v.skip(j + 1)[i - 1] == x);
}

/// Entering the first phase at pair `i` with every planned entry among the pairs
/// from `i` on and the parked files.
proof fn lemma_scan_from_settled(s: RunView, i: int)
    requires
        run_ok(at_stage(s, StageView::WriteLast)),
        0 <= i,
        forall|k: int|
            0 <= k < s.entries.len() ==> if (#[trigger] s.entries[k]).status == EntryStatus::Planned {
                k >= i || staged_olds(s).contains(s.pairs[k].0)
            } else {
                decided(s.entries[k])
            },
    ensures
        entries_settled(scan_from(s, i)),
    decreases s.pairs.len() - i,
{
    lemma_scan_from_fields(s, i);
    if i >= s.pairs.len() {
        let f = scan_from(s, i);
        assert(f == commit_from(s, 0));
        assert(staged_olds(s).skip(0) =~= staged_olds(s));
        assert forall|k: int| 0 <= k < f.entries.len() implies if (#[trigger] f.entries[k]).status
            == EntryStatus::Planned {
            may_be_planned(f, k)
        } else {
            decided(f.entries[k])
        } by {
            assert(f.entries[k] == s.entries[k]);
            if s.entries[k].status == EntryStatus::Planned && s.staged.len() == 0 {
                assert(staged_olds(s).len() == 0);
            }
        }
    } else if !s.phase1_ok {
        let es1 = mark_entry(s.entries, s.pairs[i].0, EntryStatus::Failed, Some(MSG_NOT_RUN@));
        lemma_mark_by_name(s.entries, s.pairs, s.pairs[i].0, EntryStatus::Failed, Some(MSG_NOT_RUN@));
        let s1 = RunView { entries: es1, ..s };
        assert forall|k: int| 0 <= k < s1.entries.len() implies if (#[trigger] s1.entries[k]).status
            == EntryStatus::Planned {
            k >= i + 1 || staged_olds(s1).contains(s1.pairs[k].0)
        } else {
            decided(s1.entries[k])
        } by {
            if k == i {
                assert(s1.entries[k].status == EntryStatus::Failed);
            } else if s.pairs[k].0 == s.pairs[i].0 {
                assert(olds_of(s.pairs)[k] == s.pairs[k].0);
                assert(olds_of(s.pairs)[i] == s.pairs[i].0);
            }
        }
        lemma_run_ok_transfer(at_stage(s, StageView::WriteLast), at_stage(s1, StageView::WriteLast));
        lemma_scan_from_settled(s1, i + 1);
    } else {
        let f = scan_from(s, i);
        assert forall|k: int| 0 <= k < f.entries.len() implies if (#[trigger] f.entries[k]).status
            == EntryStatus::Planned {
            may_be_planned(f, k)
        } else {
            decided(f.entries[k])
        } by {
            assert(f.entries[k] == s.entries[k]);
        }
    }
}

proof fn lemma_restore_from_settled(s: RunView, i: int, e: Seq<char>, k: int)
    requires
        run_ok(at_stage(s, StageView::WriteLast)),
        0 <= i < s.pairs.len(),
        k <= s.staged.len(),
        forall|q: int|
            0 <= q < s.entries.len() ==> if (#[trigger] s.entries[q]).status == EntryStatus::Planned {
                q >= i || staged_olds(s).contains(s.pairs[q].0)
            } else {
                decided(s.entries[q])
            },
    ensures
        entries_settled(restore_from(s, i, e, k)),
{
    if k <= 0 {
        let es1 = mark_entry(s.entries, s.pairs[i].0, EntryStatus::Failed, Some(e));
        lemma_mark_by_name(s.entries, s.pairs, s.pairs[i].0, EntryStatus::Failed, Some(e));
        let olds = s.staged.map_values(|t: StagedView| t.old_name);
        assert(olds == staged_olds(s));
        let es2 = mark_all_failed(es1, olds, MSG_ROLLED_BACK@);
        lemma_mark_all_by_name(es1, s.pairs, olds, MSG_ROLLED_BACK@);
        let s1 = RunView { entries: es2, staged: Seq::empty(), ..s };
        assert(staged_olds(s1) =~= Seq::<Seq<char>>::empty());
        lemma_run_ok_transfer(at_stage(s, StageView::WriteLast), at_stage(s1, StageView::WriteLast));
        assert forall|q: int| 0 <= q < s1.entries.len() implies if (#[trigger] s1.entries[q]).status
            == EntryStatus::Planned {
            q >= i + 1 || staged_olds(s1).contains(s1.pairs[q].0)
        } else {
            decided(s1.entries[q])
        } by {
            if q == i || s.pairs[q].0 == s.pairs[i].0 {
                assert(olds_of(s.pairs)[q] == s.pairs[q].0);
                assert(olds_of(s.pairs)[i] == s.pairs[i].0);
            }
        }
        assert(run_ok(at_stage(s1, StageView::WriteLast)));
        lemma_scan_from_settled(s1, i + 1);
    } else {
        let f = restore_from(s, i, e, k);
        assert forall|q: int| 0 <= q < f.entries.len() implies if (#[trigger] f.entries[q]).status
            == EntryStatus::Planned {
            may_be_planned(f, q)
        } else {
            decided(f.entries[q])
        } by {
            assert(f.entries[q] == s.entries[q]);
        }
    }
}

proof fn lemma_commit_settled(s: RunView, j: int, st: EntryStatus, err: Option<Seq<char>>)
    requires
        run_ok(s),
        0 <= j < s.staged.len(),
        (st == EntryStatus::Success && err is None) || (st == EntryStatus::Failed && err is Some),
        forall|q: int|
            0 <= q < s.entries.len() ==> if (#[trigger] s.entries[q]).status == EntryStatus::Planned {
                staged_olds(s).skip(j).contains(s.pairs[q].0)
            } else {
                decided(s.entries[q])
            },
    ensures
        entries_settled(
            commit_from(
                with_entries(s, mark_entry(s.entries, s.staged[j].old_name, st, err)),
                j + 1,
            ),
        ),
{
    let name = s.staged[j].old_name;
    assert(staged_olds(s)[j] == name);
    lemma_mark_by_name(s.entries, s.pairs, name, st, err);
    let s1 = with_entries(s, mark_entry(s.entries, name, st, err));
    let f = commit_from(s1, j + 1);
    assert forall|q: int| 0 <= q < f.entries.len() implies if (#[trigger] f.entries[q]).status
        == EntryStatus::Planned {
        may_be_planned(f, q)
    } else {
        decided(f.entries[q])
    } by {
        assert(f.entries[q] == s1.entries[q]);
        if s1.entries[q].status == EntryStatus::Planned {
            assert(s.pairs[q].0 != name);
            lemma_skip_contains(staged_olds(s), j, s.pairs[q].0);
            if j + 1 >= s.staged.len() {
                let v = staged_olds(s).skip(j + 1);
                assert(v.len() == 0);
            }
        }
    }
}

proof fn lemma_run_next_settled(s: RunView, reply: ReplyView)
    requires
        run_ok(s),
        entries_settled(s),
    ensures
        entries_settled(run_next(s, reply)),
{
    let w = at_stage(s, StageView::WriteLast);
    lemma_run_ok_transfer(s, w);
    match (s.stage, reply) {
        (StageView::WriteFirst, ReplyView::LedgerWritten(Ok(path))) => {
            let s1 = RunView { ledger_path: path, ..s };
            lemma_run_ok_transfer(s, at_stage(s1, StageView::WriteLast));
            lemma_scan_from_settled(s1, 0);
        },
        (StageView::Check { index }, ReplyView::SourceChecked(is_file)) => {
            if !is_file {
                lemma_mark_by_name(
                    s.entries,
                    s.pairs,
                    s.pairs[index].0,
                    EntryStatus::Failed,
                    Some(MSG_SOURCE_GONE@),
                );
                let s1 = with_entries_failed(s, index, MSG_SOURCE_GONE@);
                assert forall|q: int| 0 <= q < s1.entries.len() implies if (#[trigger] s1.entries[q]).status
                    == EntryStatus::Planned {
                    q >= index + 1 || staged_olds(s1).contains(s1.pairs[q].0)
                } else {
                    decided(s1.entries[q])
                } by {
                    if q == index || s.pairs[q].0 == s.pairs[index].0 {
                        assert(olds_of(s.pairs)[q] == s.pairs[q].0);
                        assert(olds_of(s.pairs)[index] == s.pairs[index].0);
                    }
                }
                assert(run_ok(at_stage(s1, StageView::WriteLast)));
                lemma_scan_from_settled(s1, index + 1);
            }
        },
        (StageView::Park { index, temp }, ReplyView::Moved(Ok(()))) => {
            let st = StagedView { old_name: s.pairs[index].0, new_name: s.pairs[index].1, temp_name: temp };
            let s1 = RunView { staged: s.staged.push(st), ..s };
            assert(staged_olds(s1) =~= staged_olds(s).push(s.pairs[index].0));
            lemma_pair_names(s.pairs, index);
            assert forall|m: int| 0 <= m < s1.staged.len() implies olds_of(s1.pairs).contains(
                #[trigger] staged_olds(s1)[m],
            ) by {
                if m < s.staged.len() {
                    assert(staged_olds(s1)[m] == staged_olds(s)[m]);
                }
            }
            assert forall|q: int| 0 <= q < s1.entries.len() implies if (#[trigger] s1.entries[q]).status
                == EntryStatus::Planned {
                q >= index + 1 || staged_olds(s1).contains(s1.pairs[q].0)
            } else {
                decided(s1.entries[q])
            } by {
                if s.entries[q].status == EntryStatus::Planned {
                    if q == index {
                        assert(staged_olds(s1)[s.staged.len() as int] == s.pairs[q].0);
                    } else if q < index {
                        let m = choose|m: int| 0 <= m < staged_olds(s).len() && staged_olds(s)[m] == s.pairs[q].0;
                        assert(staged_olds(s1)[m] == s.pairs[q].0);
                    }
                }
            }
            assert(run_ok(at_stage(s1, StageView::WriteLast)));
            lemma_scan_from_settled(s1, index + 1);
        },
        (StageView::Park { index, .. }, ReplyView::Moved(Err(e))) => {
            let s1 = RunView { phase1_ok: false, ..s };
            assert(run_ok(at_stage(s1, StageView::WriteLast)));
            lemma_restore_from_settled(s1, index, e, s.staged.len() as int);
        },
        (StageView::Restore { index, error, left }, ReplyView::Moved(_)) => {
            lemma_restore_from_settled(s, index, error, left - 1);
        },
        (StageView::Commit { index }, ReplyView::Moved(Ok(()))) => {
            lemma_commit_settled(s, index, EntryStatus::Success, None);
        },
        (StageView::Revert { index, error }, ReplyView::Moved(Ok(()))) => {
            lemma_commit_settled(s, index, EntryStatus::Failed, Some(error));
        },
        (StageView::Revert { index, error }, ReplyView::Moved(Err(back))) => {
            lemma_commit_settled(
                s,
                index,
                EntryStatus::Failed,
                Some(error + MSG_CANNOT_RESTORE@ + back),
            );
        },
        _ => {
            let f = run_next(s, reply);
            assert forall|q: int| 0 <= q < f.entries.len() implies if (#[trigger] f.entries[q]).status
                == EntryStatus::Planned {
                may_be_planned(f, q)
            } else {
                decided(f.entries[q])
            } by {
                assert(f.entries[q] == s.entries[q]);
                assert(s.pairs == f.pairs && s.staged == f.staged);
            }
        },
    }
}


proof fn lemma_settled_replies(
    pairs: Seq<(Seq<char>, Seq<char>)>,
    root: Seq<char>,
    created_at: Seq<char>,
    replies: Seq<ReplyView>,
)
    requires
        all_distinct(olds_of(pairs)),
    ensures
        run_ok(run_replies(run_start(pairs, root, created_at), replies)),
        entries_settled(run_replies(run_start(pairs, root, created_at), replies)),
    decreases replies.len(),
{
    let s = run_replies(run_start(pairs, root, created_at), replies);
    law_ledger_entries_follow_pairs(pairs, root, created_at, replies);
    lemma_touches(pairs, root, created_at, replies);
    assert forall|m: int| 0 <= m < s.staged.len() implies olds_of(s.pairs).contains(
        #[trigger] staged_olds(s)[m],
    ) by {
        assert(staged_olds(s)[m] == s.staged[m].old_name);
    }
    assert(run_ok(s));
    if replies.len() > 0 {
        lemma_settled_replies(pairs, root, created_at, replies.drop_last());
        lemma_run_next_settled(
            run_replies(run_start(pairs, root, created_at), replies.drop_last()),
            replies.last(),
        );
    } else {
        let s0 = run_start(pairs, root, created_at);
        assert forall|k: int| 0 <= k < s0.entries.len() implies if (#[trigger] s0.entries[k]).status
            == EntryStatus::Planned {
            may_be_planned(s0, k)
        } else {
            decided(s0.entries[k])
        } by {}
    }
}

/// A run that ends settles every entry. When the current names of a batch are
/// distinct, then whatever replies the run gets, once it has written its final
/// ledger without error every entry is decided: a success without an error, or a
/// failure with its reason. No entry is left planned.
pub proof fn law_finished_run_decides_every_entry(
    pairs: Seq<(Seq<char>, Seq<char>)>,
    root: Seq<char>,
    created_at: Seq<char>,
    replies: Seq<ReplyView>,
)
    requires
        all_distinct(olds_of(pairs)),
    ensures
        ({
            let s = run_replies(run_start(pairs, root, created_at), replies);
            s.stage == (StageView::Done { error: None }) ==> forall|k: int|
                0 <= k < s.entries.len() ==> decided(#[trigger] s.entries[k])
        }),
{
    lemma_settled_replies(pairs, root, created_at, replies);
}

/// A missing file fails alone. When the run asks whether the current file of a
/// pair is there and is told it is not, that pair's entry is marked failed with
/// `当前文件不存在`, no other entry changes, and the run goes on with the next
/// pair (or, after the last, with the second phase).
pub proof fn law_missing_source_fails_alone(s: RunView, i: int)
    requires
        s.stage == (StageView::Check { index: i }),
        0 <= i < s.pairs.len(),
        shaped(s.entries, s.pairs),
        all_distinct(olds_of(s.pairs)),
        s.phase1_ok,
    ensures
        ({
            let n = run_next(s, ReplyView::SourceChecked(false));
            &&& n.entries == s.entries.update(
                i,
                EntryView {
                    old_name: s.pairs[i].0,
                    new_name: s.pairs[i].1,
                    status: EntryStatus::Failed,
                    error: Some(MSG_SOURCE_GONE@),
                },
            )
            &&& n.staged == s.staged
            &&& n.stage == if i + 1 < s.pairs.len() {
                StageView::Check { index: i + 1 }
            } else if s.staged.len() > 0 {
                StageView::Commit { index: 0 }
            } else {
                StageView::WriteLast
            }
        }),
{
    lemma_mark_at(s.entries, s.pairs, i, EntryStatus::Failed, Some(MSG_SOURCE_GONE@));
    lemma_scan_from_fields(with_entries_failed(s, i, MSG_SOURCE_GONE@), i + 1);
}

} // verus!
