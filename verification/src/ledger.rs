//! The rename ledger: what a batch planned and what became of each rename.

use vstd::prelude::*;

use crate::clock::{format_local, local_now};
use crate::excel::ExcelError;
use crate::order::{
    lemma_name_lt_asymmetric, lemma_name_lt_irreflexive, lemma_name_lt_total,
    lemma_name_lt_transitive, name_lt, str_lt, str_lt_from,
};
use crate::strs::strings_view;
use crate::paths::join_path;

verus! {

/// Name of the directory, under the data directory, that holds the ledgers.
pub const BACKUP_DIR_NAME: &'static str = "rename_backup";

/// File name of the JSON ledger.
pub const LEDGER_JSON: &'static str = "rename_map.json";

/// File name of the spreadsheet copy of the ledger.
pub const LEDGER_XLSX: &'static str = "rename_map.xlsx";

pub const CREATED_AT_PATTERN: &'static str = "%Y-%m-%d %H:%M:%S";

pub const BACKUP_STAMP_PATTERN: &'static str = "%Y%m%d_%H%M%S";

/// What became of one planned rename.
#[derive(Debug, Clone, Copy, PartialEq, Eq, Structural)]
pub enum EntryStatus {
    Planned,
    Success,
    Failed,
    RolledBack,
}

/// One planned rename and its fate.
#[derive(Debug, Clone)]
pub struct LedgerEntry {
    pub old_name: String,
    pub new_name: String,
    pub status: EntryStatus,
    pub error: Option<String>,
}

/// A ledger entry with its strings taken as character sequences.
pub struct EntryView {
    pub old_name: Seq<char>,
    pub new_name: Seq<char>,
    pub status: EntryStatus,
    pub error: Option<Seq<char>>,
}

pub open spec fn opt_view(o: Option<String>) -> Option<Seq<char>> {
    match o {
        Some(s) => Some(s@),
        None => None,
    }
}

impl View for LedgerEntry {
    type V = EntryView;

    open spec fn view(&self) -> EntryView {
        EntryView {
            old_name: self.old_name@,
            new_name: self.new_name@,
            status: self.status,
            error: opt_view(self.error),
        }
    }
}

pub open spec fn entries_view(v: Seq<LedgerEntry>) -> Seq<EntryView> {
    v.map_values(|e: LedgerEntry| e@)
}

/// The record of a batch: the data directory, when it was made, and its entries.
#[derive(Debug, Clone)]
pub struct Ledger {
    pub version: u32,
    pub root: String,
    pub created_at: String,
    pub entries: Vec<LedgerEntry>,
}

/// Errors met while keeping the ledger.
#[derive(Debug)]
pub enum LedgerError {
    Io(String),
    Json(String),
    Excel(ExcelError),
    NotFound,
}

/// The entries that a batch of (current name, new name) pairs starts with.
pub open spec fn planned_entries(pairs: Seq<(Seq<char>, Seq<char>)>) -> Seq<EntryView> {
    pairs.map_values(
        |p: (Seq<char>, Seq<char>)|
            EntryView { old_name: p.0, new_name: p.1, status: EntryStatus::Planned, error: None },
    )
}

/// The index of the first entry for `old_name`, or the number of entries when
/// there is none.
pub open spec fn find_entry(es: Seq<EntryView>, old_name: Seq<char>) -> int
    decreases es.len(),
{
    if es.len() == 0 {
        0
    } else {
        let p = find_entry(es.drop_last(), old_name);
        if p < es.len() - 1 {
            p
        } else if es.last().old_name == old_name {
            es.len() - 1
        } else {
            es.len() as int
        }
    }
}

/// The entries after the first one for `old_name` gets `status` and `error`; the
/// entries are unchanged when none is for `old_name`.
pub open spec fn mark_entry(
    es: Seq<EntryView>,
    old_name: Seq<char>,
    status: EntryStatus,
    error: Option<Seq<char>>,
) -> Seq<EntryView> {
    let k = find_entry(es, old_name);
    if k < es.len() {
        es.update(
            k,
            EntryView { old_name: es[k].old_name, new_name: es[k].new_name, status, error },
        )
    } else {
        es
    }
}

pub proof fn lemma_find_entry_bounds(es: Seq<EntryView>, o: Seq<char>)
    ensures
        0 <= find_entry(es, o) <= es.len(),
        find_entry(es, o) < es.len() ==> es[find_entry(es, o)].old_name == o,
        forall|j: int| 0 <= j < find_entry(es, o) ==> es[j].old_name != o,
    decreases es.len(),
{
    if es.len() > 0 {
        let prefix = es.drop_last();
        lemma_find_entry_bounds(prefix, o);
        assert forall|j: int| 0 <= j < es.len() - 1 implies es[j] == prefix[j] by {}
    }
}

proof fn lemma_find_entry_prefix(es: Seq<EntryView>, o: Seq<char>, m: int)
    requires
        0 <= m <= es.len(),
    ensures
        find_entry(es.take(m), o) < m ==> find_entry(es, o) == find_entry(es.take(m), o),
    decreases es.len() - m,
{
    lemma_find_entry_bounds(es.take(m), o);
    if m < es.len() {
        lemma_find_entry_prefix(es, o, m + 1);
        assert(es.take(m + 1).drop_last() =~= es.take(m));
    } else {
        assert(es.take(m) =~= es);
    }
}

/// Gives the first entry for `old_name` the status and error given.
fn mark(entries: &mut Vec<LedgerEntry>, old_name: &String, status: EntryStatus, error: Option<String>)
    ensures
        entries_view(final(entries)@) == mark_entry(
            entries_view(old(entries)@),
            old_name@,
            status,
            opt_view(error),
        ),
{
    let ghost es = entries_view(entries@);
    let mut i: usize = 0;
    while i < entries.len()
        invariant
            es == entries_view(entries@),
            entries@ == old(entries)@,
            i <= entries@.len(),
            find_entry(es.take(i as int), old_name@) == i,
        decreases entries.len() - i,
    {
        proof {
            lemma_find_entry_bounds(es.take(i as int), old_name@);
            assert(es.take(i + 1).drop_last() =~= es.take(i as int));
        }
        if entries[i].old_name == *old_name {
            proof {
                assert(es.take(i + 1).last() == es[i as int]);
                assert(find_entry(es.take(i + 1), old_name@) == i);
                lemma_find_entry_prefix(es, old_name@, i + 1);
                assert(find_entry(es, old_name@) == i);
            }
            let old_entry = &entries[i];
            let entry = LedgerEntry {
                old_name: old_entry.old_name.clone(),
                new_name: old_entry.new_name.clone(),
                status,
                error,
            };
            let ghost before = entries@;
            entries.set(i, entry);
            proof {
                let target = mark_entry(es, old_name@, status, opt_view(error));
                assert(entries@ == before.update(i as int, entry));
                assert forall|j: int| 0 <= j < entries@.len() implies entries_view(entries@)[j]
                    == target[j] by {
                    if j != i {
                        assert(entries@[j] == before[j]);
                    }
                }
                assert(entries_view(entries@) =~= target);
            }
            return;
        }
        i = i + 1;
    }
    proof {
        assert(es.take(i as int) =~= es);
    }
}

/// Records that the rename of `old_name` went through.
pub fn mark_success(ledger: &mut Ledger, old_name: &String)
    ensures
        entries_view(final(ledger).entries@) == mark_entry(
            entries_view(old(ledger).entries@),
            old_name@,
            EntryStatus::Success,
            None,
        ),
        final(ledger).version == old(ledger).version,
        final(ledger).root == old(ledger).root,
        final(ledger).created_at == old(ledger).created_at,
{
    mark(&mut ledger.entries, old_name, EntryStatus::Success, None);
}

/// Records that the rename of `old_name` failed, and why.
pub fn mark_failed(ledger: &mut Ledger, old_name: &String, reason: &str)
    ensures
        entries_view(final(ledger).entries@) == mark_entry(
            entries_view(old(ledger).entries@),
            old_name@,
            EntryStatus::Failed,
            Some(reason@),
        ),
        final(ledger).version == old(ledger).version,
        final(ledger).root == old(ledger).root,
        final(ledger).created_at == old(ledger).created_at,
{
    mark(&mut ledger.entries, old_name, EntryStatus::Failed, Some(String::from_str(reason)));
}

impl Ledger {
    /// A new ledger for the batch `pairs` in the data directory `root`: version 1,
    /// stamped with the current local time, every entry planned.
    pub fn new(root: &str, pairs: &[(String, String)]) -> (l: Ledger)
        ensures
            l.version == 1,
            l.root@ == root@,
            crate::clock::is_stamp_text(l.created_at@, crate::clock::long_stamp_tail()),
            entries_view(l.entries@) == planned_entries(
                pairs@.map_values(|p: (String, String)| (p.0@, p.1@)),
            ),
    {
        let now = local_now();
        let created_at = format_local(&now, CREATED_AT_PATTERN);
        let mut entries: Vec<LedgerEntry> = Vec::new();
        let ghost pv = pairs@.map_values(|p: (String, String)| (p.0@, p.1@));
        let mut i: usize = 0;
        while i < pairs.len()
            invariant
                pv == pairs@.map_values(|p: (String, String)| (p.0@, p.1@)),
                i <= pairs@.len(),
                entries_view(entries@) == planned_entries(pv.take(i as int)),
                entries@.len() == i,
            decreases pairs.len() - i,
        {
            let entry = LedgerEntry {
                old_name: pairs[i].0.clone(),
                new_name: pairs[i].1.clone(),
                status: EntryStatus::Planned,
                error: None,
            };
            let ghost before = entries@;
            entries.push(entry);
            proof {
                assert(pv[i as int] == (pairs@[i as int].0@, pairs@[i as int].1@));
                let target = planned_entries(pv.take(i + 1));
                assert forall|k: int| 0 <= k <= i implies entries_view(entries@)[k] == target[k] by {
                    if k < i {
                        assert(entries@[k] == before[k]);
                        assert(entries_view(before)[k] == planned_entries(pv.take(i as int))[k]);
                    } else {
                        assert(entries@[k] == entry);
                    }
                }
                assert(entries_view(entries@) =~= target);
            }
            i = i + 1;
        }
        assert(pv.take(i as int) =~= pv);
        Ledger { version: 1, root: String::from_str(root), created_at, entries }
    }

    /// Where the JSON ledger of the backup directory `dir` is kept.
    pub fn json_path(dir: &str) -> (p: String)
        ensures
            crate::paths::joined(dir@, LEDGER_JSON@, p@),
    {
        proof {
            reveal_strlit("rename_map.json");
        }
        join_path(dir, LEDGER_JSON)
    }
}

/// The directory, under the data directory `data_root`, that holds the ledgers.
pub fn backup_root(data_root: &str) -> (p: String)
    ensures
        crate::paths::joined(data_root@, BACKUP_DIR_NAME@, p@),
{
    proof {
        reveal_strlit("rename_backup");
    }
    join_path(data_root, BACKUP_DIR_NAME)
}

/// A name for a new backup directory: the current local time, as
/// `YYYYmmdd_HHMMSS`. Which time it is depends on the clock; what is stated is
/// the shape of the name.
pub fn backup_stamp() -> (s: String)
    ensures
        crate::clock::is_stamp_text(s@, crate::clock::compact_stamp_tail()),
{
    let now = local_now();
    format_local(&now, BACKUP_STAMP_PATTERN)
}

/// The prefix of the name of a backup directory made by a rollback.
pub const ROLLBACK_PREFIX: &'static str = "rollback_";

/// Where the time stamp of a backup directory's name starts: after the rollback
/// prefix where there is one, else at the start.
pub open spec fn stamp_offset(name: Seq<char>) -> int {
    if name.len() >= ROLLBACK_PREFIX@.len() && name.take(ROLLBACK_PREFIX@.len() as int)
        == ROLLBACK_PREFIX@ {
        ROLLBACK_PREFIX@.len() as int
    } else {
        0
    }
}

/// The time stamp in the name of a backup directory.
pub open spec fn stamp_of(name: Seq<char>) -> Seq<char> {
    name.skip(stamp_offset(name))
}

/// Backup directory `a` is older than `b`: its time stamp sorts first, or the
/// stamps are the same and its whole name sorts first (so a rollback made in the
/// same second as a batch counts as the later one).
pub open spec fn backup_older(a: Seq<char>, b: Seq<char>) -> bool {
    name_lt(stamp_of(a), stamp_of(b)) || (stamp_of(a) == stamp_of(b) && name_lt(a, b))
}

proof fn lemma_backup_older_order(a: Seq<char>, b: Seq<char>, c: Seq<char>)
    ensures
        !backup_older(a, a),
        !(backup_older(a, b) && backup_older(b, a)),
        backup_older(a, b) && backup_older(b, c) ==> backup_older(a, c),
        a != b ==> backup_older(a, b) || backup_older(b, a),
{
    let (sa, sb, sc) = (stamp_of(a), stamp_of(b), stamp_of(c));
    lemma_name_lt_irreflexive(sa);
    lemma_name_lt_irreflexive(a);
    lemma_name_lt_asymmetric(sa, sb);
    lemma_name_lt_asymmetric(a, b);
    lemma_name_lt_total(sa, sb);
    lemma_name_lt_total(a, b);
    if name_lt(sa, sb) && name_lt(sb, sc) {
        lemma_name_lt_transitive(sa, sb, sc);
    }
    if name_lt(a, b) && name_lt(b, c) {
        lemma_name_lt_transitive(a, b, c);
    }
}

/// Where the time stamp of `name` starts (`stamp_offset`).
fn stamp_start(name: &str) -> (k: usize)
    ensures
        k as int == stamp_offset(name@),
        k <= name@.len(),
{
    let prefix = ROLLBACK_PREFIX;
    proof {
        reveal_strlit("rollback_");
    }
    let m = prefix.unicode_len();
    let n = name.unicode_len();
    if n < m {
        return 0;
    }
    let mut i: usize = 0;
    while i < m
        invariant
            m == prefix@.len(),
            prefix@ == ROLLBACK_PREFIX@,
            n == name@.len(),
            m <= n,
            i <= m,
            name@.take(i as int) == prefix@.take(i as int),
        decreases m - i,
    {
        if name.get_char(i) != prefix.get_char(i) {
            assert(name@.take(m as int)[i as int] != prefix@[i as int]);
            return 0;
        }
        assert(name@.take(i + 1) =~= name@.take(i as int).push(name@[i as int]));
        assert(prefix@.take(i + 1) =~= prefix@.take(i as int).push(prefix@[i as int]));
        i = i + 1;
    }
    assert(prefix@.take(m as int) =~= prefix@);
    m
}

/// Whether backup directory `a` is older than `b` (`backup_older`).
fn is_backup_older(a: &str, b: &str) -> (r: bool)
    ensures
        r == backup_older(a@, b@),
{
    let ka = stamp_start(a);
    let kb = stamp_start(b);
    if str_lt_from(a, ka, b, kb) {
        return true;
    }
    if str_lt_from(b, kb, a, ka) {
        proof {
            lemma_name_lt_asymmetric(stamp_of(a@), stamp_of(b@));
            lemma_name_lt_irreflexive(stamp_of(a@));
        }
        return false;
    }
    proof {
        lemma_name_lt_total(stamp_of(a@), stamp_of(b@));
    }
    str_lt(a, b)
}

/// Of the backup directories that hold a ledger (given by name), the latest: the
/// one whose time stamp (after the rollback prefix, where there is one) is the
/// latest, a rollback counting as later than a batch of the same second. `None`
/// when there is none.
pub fn latest_backup(names: &[String]) -> (r: Option<usize>)
    ensures
        r is None <==> names@.len() == 0,
        r matches Some(i) ==> i < names@.len() && forall|j: int|
            0 <= j < names@.len() ==> !backup_older(names@[i as int]@, #[trigger] names@[j]@),
{
    if names.len() == 0 {
        return None;
    }
    let mut best: usize = 0;
    let mut i: usize = 1;
    proof {
        lemma_backup_older_order(names@[0]@, names@[0]@, names@[0]@);
    }
    while i < names.len()
        invariant
            1 <= i <= names@.len(),
            best < i,
            forall|j: int| 0 <= j < i ==> !backup_older(names@[best as int]@, #[trigger] names@[j]@),
        decreases names.len() - i,
    {
        if !is_backup_older(names[i].as_str(), names[best].as_str()) {
            proof {
                let x = names@[i as int]@;
                let y = names@[best as int]@;
                assert forall|j: int| 0 <= j <= i implies !backup_older(x, #[trigger] names@[j]@) by {
                    let z = names@[j]@;
                    lemma_backup_older_order(x, y, z);
                    lemma_backup_older_order(y, x, z);
                    if j < i && backup_older(x, z) {
                        if x == y {
                            assert(backup_older(y, z));
                        }
                    }
                }
            }
            best = i;
        } else {
            proof {
                let x = names@[i as int]@;
                let y = names@[best as int]@;
                lemma_backup_older_order(x, y, y);
            }
        }
        i = i + 1;
    }
    Some(best)
}

} // verus!
