//! The files found one level below the data directory.

use vstd::prelude::*;

pub use crate::size_text::format_bytes;
use crate::order::{
    lemma_name_lt_asymmetric, lemma_name_lt_irreflexive, lemma_name_lt_total,
    lemma_name_lt_transitive, name_lt, str_lt,
};

verus! {

/// A file directly below the data directory: its name and its size in bytes.
#[derive(Debug, Clone)]
pub struct FileEntry {
    pub name: String,
    pub size: u64,
}

/// The files of the data directory, sorted by name, and their total size.
#[derive(Debug, Clone)]
pub struct ScanResult {
    pub root: String,
    pub files: Vec<FileEntry>,
    pub total_size: u64,
}

/// Why the data directory could not be scanned.
#[derive(Debug)]
pub enum ScanError {
    Io(String),
    NotDir(String),
}

/// The names of a list of files, in order.
pub open spec fn entry_names(files: Seq<FileEntry>) -> Seq<Seq<char>> {
    files.map_values(|f: FileEntry| f.name@)
}

/// The sum of the sizes of `files`.
pub open spec fn total_size(files: Seq<FileEntry>) -> int
    decreases files.len(),
{
    if files.len() == 0 {
        0
    } else {
        total_size(files.drop_last()) + files.last().size
    }
}

/// `files` are in order of name.
pub open spec fn sorted_by_name(files: Seq<FileEntry>) -> bool {
    forall|i: int, j: int| 0 <= i < j < files.len() ==> !name_lt(files[j].name@, files[i].name@)
}

proof fn lemma_total_size_nonneg(files: Seq<FileEntry>, k: int)
    requires
        0 <= k <= files.len(),
    ensures
        0 <= total_size(files.take(k)) <= total_size(files),
    decreases files.len() - k,
{
    if k < files.len() {
        lemma_total_size_nonneg(files, k + 1);
        assert(files.take(k + 1).drop_last() =~= files.take(k));
        lemma_total_nonneg(files.take(k));
    } else {
        assert(files.take(k) =~= files);
        lemma_total_nonneg(files);
    }
}

proof fn lemma_total_nonneg(files: Seq<FileEntry>)
    ensures
        0 <= total_size(files),
    decreases files.len(),
{
    if files.len() > 0 {
        lemma_total_nonneg(files.drop_last());
    }
}

/// Inserts `x` into the sorted `out`, after every file whose name does not sort
/// after `x`'s.
fn insert_sorted(out: &mut Vec<FileEntry>, x: FileEntry)
    requires
        sorted_by_name(old(out)@),
    ensures
        sorted_by_name(final(out)@),
        final(out)@.to_multiset() == old(out)@.to_multiset().insert(x),
{
    let mut p: usize = 0;
    while p < out.len() && !str_lt(x.name.as_str(), out[p].name.as_str())
        invariant
            p <= out@.len(),
            forall|i: int| 0 <= i < p ==> !name_lt(x.name@, (#[trigger] out@[i]).name@),
        decreases out.len() - p,
    {
        p = p + 1;
    }
    let ghost before = out@;
    proof {
        assert forall|j: int| p <= j < before.len() implies !name_lt((#[trigger] before[j]).name@, x.name@) by {
            assert(name_lt(x.name@, before[p as int].name@));
            if name_lt(before[j].name@, x.name@) {
                lemma_name_lt_transitive(before[j].name@, x.name@, before[p as int].name@);
                if j == p {
                    lemma_name_lt_irreflexive(before[j].name@);
                } else {
                    assert(!name_lt(before[j].name@, before[p as int].name@));
                }
            }
        }
        vstd::seq_lib::to_multiset_insert(before, p as int, x);
        before.insert_ensures(p as int, x);
    }
    out.insert(p, x);
    proof {
        let after = out@;
        assert(after == before.insert(p as int, x));
        assert forall|i: int, j: int| 0 <= i < j < after.len() implies !name_lt(
            after[j].name@,
            after[i].name@,
        ) by {
            if i < p && j < p {
                assert(after[i] == before[i] && after[j] == before[j]);
            } else if i < p && j == p {
                assert(after[i] == before[i]);
                lemma_name_lt_asymmetric(after[j].name@, after[i].name@);
                assert(!name_lt(x.name@, before[i].name@));
                lemma_name_lt_total(x.name@, before[i].name@);
            } else if i < p && j > p {
                assert(after[i] == before[i] && after[j] == before[j - 1]);
            } else if i == p {
                assert(after[j] == before[j - 1]);
            } else {
                assert(after[i] == before[i - 1] && after[j] == before[j - 1]);
            }
        }
    }
}

/// The result of scanning the data directory `root`, given the files found in
/// it: the files sorted by name, and the sum of their sizes.
pub fn summarize_scan(root: &str, files: Vec<FileEntry>) -> (r: ScanResult)
    requires
        total_size(files@) <= u64::MAX,
    ensures
        r.root@ == root@,
        sorted_by_name(r.files@),
        r.files@.to_multiset() == files@.to_multiset(),
        r.total_size == total_size(files@),
{
    let ghost all = files@;
    let count = files.len();
    let mut rest = files;
    let mut total: u64 = 0;
    let mut sorted: Vec<FileEntry> = Vec::new();
    let mut i: usize = 0;
    proof {
        assert(all.take(0) =~= sorted@);
        assert(all.skip(0) =~= rest@);
    }
    while rest.len() > 0
        invariant
            i <= all.len(),
            all.len() == count,
            rest@ == all.skip(i as int),
            total_size(all) <= u64::MAX,
            total == total_size(all.take(i as int)),
            sorted_by_name(sorted@),
            sorted@.to_multiset() == all.take(i as int).to_multiset(),
        decreases rest.len(),
    {
        let x = rest.remove(0);
        proof {
            assert(x == all[i as int]);
            assert(rest@ =~= all.skip(i + 1));
            assert(all.take(i + 1).drop_last() =~= all.take(i as int));
            assert(all.take(i + 1) =~= all.take(i as int).push(x));
            lemma_total_size_nonneg(all, i + 1);
            vstd::seq_lib::to_multiset_build(all.take(i as int), x);
        }
        total = total + x.size;
        insert_sorted(&mut sorted, x);
        i = i + 1;
    }
    assert(all.take(i as int) =~= all);
    ScanResult { root: String::from_str(root), files: sorted, total_size: total }
}

} // verus!
