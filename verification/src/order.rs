//! The order of names: lexicographic by code point, which for UTF-8 text is the
//! byte order that `str`'s `Ord` uses.

use vstd::prelude::*;

verus! {

/// `a` sorts strictly before `b`.
pub open spec fn name_lt(a: Seq<char>, b: Seq<char>) -> bool
    decreases a.len(),
{
    if a.len() == 0 {
        b.len() > 0
    } else if b.len() == 0 {
        false
    } else if a[0] != b[0] {
        (a[0] as u32) < (b[0] as u32)
    } else {
        name_lt(a.drop_first(), b.drop_first())
    }
}

pub proof fn lemma_name_lt_irreflexive(a: Seq<char>)
    ensures
        !name_lt(a, a),
    decreases a.len(),
{
    if a.len() > 0 {
        lemma_name_lt_irreflexive(a.drop_first());
    }
}

pub proof fn lemma_name_lt_asymmetric(a: Seq<char>, b: Seq<char>)
    ensures
        !(name_lt(a, b) && name_lt(b, a)),
    decreases a.len(),
{
    if a.len() > 0 && b.len() > 0 && a[0] == b[0] {
        lemma_name_lt_asymmetric(a.drop_first(), b.drop_first());
    }
}

pub proof fn lemma_name_lt_transitive(a: Seq<char>, b: Seq<char>, c: Seq<char>)
    requires
        name_lt(a, b),
        name_lt(b, c),
    ensures
        name_lt(a, c),
    decreases a.len(),
{
    if a.len() > 0 && b.len() > 0 && c.len() > 0 && a[0] == b[0] && b[0] == c[0] {
        lemma_name_lt_transitive(a.drop_first(), b.drop_first(), c.drop_first());
    }
}

pub proof fn lemma_name_lt_total(a: Seq<char>, b: Seq<char>)
    ensures
        name_lt(a, b) || name_lt(b, a) || a == b,
    decreases a.len(),
{
    if a.len() > 0 && b.len() > 0 && a[0] == b[0] {
        lemma_name_lt_total(a.drop_first(), b.drop_first());
        if a.drop_first() == b.drop_first() {
            assert(a =~= seq![a[0]] + a.drop_first());
            assert(b =~= seq![b[0]] + b.drop_first());
            assert(a == b);
        }
    } else if a.len() > 0 && b.len() > 0 {
        vstd::utf8::char_u32_cast(a[0], a[0] as u32);
        vstd::utf8::char_u32_cast(b[0], b[0] as u32);
    } else if a.len() == 0 && b.len() == 0 {
        assert(a =~= b);
    }
}

/// Whether `a` sorts strictly before `b`.
pub fn str_lt(a: &str, b: &str) -> (r: bool)
    ensures
        r == name_lt(a@, b@),
{
    let n = a.unicode_len();
    let m = b.unicode_len();
    let mut i: usize = 0;
    assert(a@.skip(0) =~= a@);
    assert(b@.skip(0) =~= b@);
    while i < n && i < m
        invariant
            n == a@.len(),
            m == b@.len(),
            i <= n,
            i <= m,
            name_lt(a@, b@) == name_lt(a@.skip(i as int), b@.skip(i as int)),
        decreases n - i,
    {
        let x = a.get_char(i);
        let y = b.get_char(i);
        assert(a@.skip(i as int)[0] == x && b@.skip(i as int)[0] == y);
        if x != y {
            return (x as u32) < (y as u32);
        }
        assert(a@.skip(i as int).drop_first() =~= a@.skip(i + 1));
        assert(b@.skip(i as int).drop_first() =~= b@.skip(i + 1));
        i = i + 1;
    }
    i < m && i == n
}


/// Whether `a` from its character `i` on sorts strictly before `b` from its
/// character `j` on.
pub fn str_lt_from(a: &str, i: usize, b: &str, j: usize) -> (r: bool)
    requires
        i <= a@.len(),
        j <= b@.len(),
    ensures
        r == name_lt(a@.skip(i as int), b@.skip(j as int)),
{
    let n = a.unicode_len();
    let m = b.unicode_len();
    let mut x: usize = i;
    let mut y: usize = j;
    while x < n && y < m
        invariant
            n == a@.len(),
            m == b@.len(),
            i <= x <= n,
            j <= y <= m,
            x - i == y - j,
            name_lt(a@.skip(i as int), b@.skip(j as int)) == name_lt(a@.skip(x as int), b@.skip(y as int)),
        decreases n - x,
    {
        let c = a.get_char(x);
        let d = b.get_char(y);
        assert(a@.skip(x as int)[0] == c && b@.skip(y as int)[0] == d);
        if c != d {
            return (c as u32) < (d as u32);
        }
        assert(a@.skip(x as int).drop_first() =~= a@.skip(x + 1));
        assert(b@.skip(y as int).drop_first() =~= b@.skip(y + 1));
        x = x + 1;
        y = y + 1;
    }
    y < m && x == n
}

} // verus!
