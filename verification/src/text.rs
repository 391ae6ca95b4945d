//! Character classes and small string operations used by the name checks.

use vstd::prelude::*;

verus! {

/// Unicode `White_Space` characters, the set that `char::is_whitespace` tests.
pub open spec fn is_space(c: char) -> bool {
    let u = c as u32;
    ||| 0x09 <= u <= 0x0D
    ||| u == 0x20
    ||| u == 0x85
    ||| u == 0xA0
    ||| u == 0x1680
    ||| 0x2000 <= u <= 0x200A
    ||| u == 0x2028
    ||| u == 0x2029
    ||| u == 0x202F
    ||| u == 0x205F
    ||| u == 0x3000
}

/// Unicode general category `Cc`, the set that `char::is_control` tests.
pub open spec fn is_control(c: char) -> bool {
    let u = c as u32;
    u <= 0x1F || (0x7F <= u <= 0x9F)
}

pub fn char_is_space(c: char) -> (b: bool)
    ensures
        b == is_space(c),
{
    let u = c as u32;
    (0x09 <= u && u <= 0x0D) || u == 0x20 || u == 0x85 || u == 0xA0 || u == 0x1680 || (0x2000
        <= u && u <= 0x200A) || u == 0x2028 || u == 0x2029 || u == 0x202F || u == 0x205F || u
        == 0x3000
}

pub fn char_is_control(c: char) -> (b: bool)
    ensures
        b == is_control(c),
{
    let u = c as u32;
    u <= 0x1F || (0x7F <= u && u <= 0x9F)
}

/// What `str::trim_start` keeps: the text after its leading white space.
pub open spec fn trim_start(s: Seq<char>) -> Seq<char>
    decreases s.len(),
{
    if s.len() > 0 && is_space(s[0]) {
        trim_start(s.drop_first())
    } else {
        s
    }
}

/// What `str::trim_end` keeps: the text before its trailing white space.
pub open spec fn trim_end(s: Seq<char>) -> Seq<char>
    decreases s.len(),
{
    if s.len() > 0 && is_space(s.last()) {
        trim_end(s.drop_last())
    } else {
        s
    }
}

/// What `str::trim` keeps.
pub open spec fn trim(s: Seq<char>) -> Seq<char> {
    trim_end(trim_start(s))
}

proof fn lemma_trim_start_suffix(s: Seq<char>, i: int)
    requires
        0 <= i <= s.len(),
        forall|j: int| 0 <= j < i ==> is_space(#[trigger] s[j]),
    ensures
        trim_start(s) == trim_start(s.subrange(i, s.len() as int)),
    decreases i,
{
    if i > 0 {
        assert(is_space(s[0]));
        assert(s.drop_first() =~= s.subrange(1, s.len() as int));
        let t = s.drop_first();
        assert forall|j: int| 0 <= j < i - 1 implies is_space(#[trigger] t[j]) by {
            assert(t[j] == s[j + 1]);
        }
        lemma_trim_start_suffix(t, i - 1);
        assert(t.subrange(i - 1, t.len() as int) =~= s.subrange(i, s.len() as int));
    } else {
        assert(s.subrange(0, s.len() as int) =~= s);
    }
}

proof fn lemma_trim_end_prefix(s: Seq<char>, k: int)
    requires
        0 <= k <= s.len(),
        forall|j: int| k <= j < s.len() ==> is_space(#[trigger] s[j]),
    ensures
        trim_end(s) == trim_end(s.subrange(0, k)),
    decreases s.len() - k,
{
    if k < s.len() {
        assert(is_space(s[s.len() - 1]));
        let t = s.drop_last();
        assert forall|j: int| k <= j < t.len() implies is_space(#[trigger] t[j]) by {
            assert(t[j] == s[j]);
        }
        lemma_trim_end_prefix(t, k);
        assert(t.subrange(0, k) =~= s.subrange(0, k));
    } else {
        assert(s.subrange(0, k) =~= s);
    }
}

/// The characters of `s`, in order.
pub fn chars_of(s: &str) -> (v: Vec<char>)
    ensures
        v@ == s@,
{
    let n = s.unicode_len();
    let mut v: Vec<char> = Vec::new();
    let mut i: usize = 0;
    while i < n
        invariant
            n == s@.len(),
            i <= n,
            v@ == s@.subrange(0, i as int),
        decreases n - i,
    {
        let c = s.get_char(i);
        v.push(c);
        i = i + 1;
        assert(v@ =~= s@.subrange(0, i as int));
    }
    assert(v@ =~= s@);
    v
}

/// `str::trim`, on an owned result.
pub fn trim_str(s: &str) -> (r: String)
    ensures
        r@ == trim(s@),
{
    let cs = chars_of(s);
    let n = cs.len();
    let mut start: usize = 0;
    while start < n && char_is_space(cs[start])
        invariant
            cs@ == s@,
            n == cs@.len(),
            start <= n,
            forall|j: int| 0 <= j < start ==> is_space(#[trigger] cs@[j]),
        decreases n - start,
    {
        start = start + 1;
    }
    proof {
        lemma_trim_start_suffix(s@, start as int);
    }
    let ghost front = s@.subrange(start as int, n as int);
    assert(start < n ==> !is_space(front[0]));
    assert(trim_start(s@) == front) by {
        if start < n {
            assert(!is_space(front[0]));
        } else {
            assert(front.len() == 0);
        }
    }
    let mut end: usize = n;
    while end > start && char_is_space(cs[end - 1])
        invariant
            cs@ == s@,
            n == cs@.len(),
            start <= end <= n,
            forall|j: int| end <= j < n ==> is_space(#[trigger] cs@[j]),
        decreases end,
    {
        end = end - 1;
    }
    proof {
        let k = end - start;
        assert forall|j: int| k <= j < front.len() implies is_space(#[trigger] front[j]) by {
            assert(front[j] == s@[j + start]);
        }
        lemma_trim_end_prefix(front, k);
        assert(front.subrange(0, k) =~= s@.subrange(start as int, end as int));
        let rest = front.subrange(0, k);
        if k > 0 {
            assert(rest.last() == s@[end - 1]);
        }
    }
    let sub = s.substring_char(start, end);
    sub.to_owned()
}

/// ASCII case folding of one character, as `to_ascii_lowercase` does it.
pub open spec fn fold_ascii(c: char) -> int {
    let u = c as u32;
    if 0x41 <= u <= 0x5A {
        u + 32
    } else {
        u as int
    }
}

/// `str::eq_ignore_ascii_case` on the characters of two strings.
pub open spec fn eq_ignore_ascii_case(a: Seq<char>, b: Seq<char>) -> bool {
    a.len() == b.len() && forall|i: int| 0 <= i < a.len() ==> fold_ascii(#[trigger] a[i])
        == fold_ascii(b[i])
}

pub fn seq_eq_ignore_ascii_case(a: &Vec<char>, b: &str) -> (r: bool)
    ensures
        r == eq_ignore_ascii_case(a@, b@),
{
    let bs = chars_of(b);
    if a.len() != bs.len() {
        return false;
    }
    let mut i: usize = 0;
    while i < a.len()
        invariant
            bs@ == b@,
            a@.len() == bs@.len(),
            i <= a@.len(),
            forall|j: int| 0 <= j < i ==> fold_ascii(#[trigger] a@[j]) == fold_ascii(bs@[j]),
        decreases a.len() - i,
    {
        let x = a[i] as u32;
        let y = bs[i] as u32;
        let fx = if 0x41 <= x && x <= 0x5A {
            x + 32
        } else {
            x
        };
        let fy = if 0x41 <= y && y <= 0x5A {
            y + 32
        } else {
            y
        };
        assert(fx as int == fold_ascii(a@[i as int]));
        assert(fy as int == fold_ascii(bs@[i as int]));
        if fx != fy {
            assert(fold_ascii(a@[i as int]) != fold_ascii(b@[i as int]));
            return false;
        }
        i = i + 1;
    }
    true
}


proof fn lemma_trim_start_concat(s: Seq<char>, t: Seq<char>)
    ensures
        trim_start(s + t) == if trim_start(s).len() > 0 {
            trim_start(s) + t
        } else {
            trim_start(t)
        },
    decreases s.len(),
{
    if s.len() == 0 {
        assert(s + t =~= t);
    } else {
        assert((s + t)[0] == s[0]);
        assert((s + t).drop_first() =~= s.drop_first() + t);
        lemma_trim_start_concat(s.drop_first(), t);
    }
}

/// `str::trim` strips exactly the characters that Unicode gives the
/// White_Space property: ASCII tab, line feed, vertical tab, form feed, carriage
/// return and space, U+0085, U+00A0 (no-break space), U+1680, U+2000 to U+200A,
/// U+2028, U+2029, U+202F, U+205F and U+3000 (ideographic space). A character
/// alone trims to nothing exactly when it is one of them, and any number of
/// them around a text trim away, at either end.
pub proof fn law_trim_strips_unicode_white_space(c: char, s: Seq<char>)
    ensures
        trim(seq![c]).len() == 0 <==> (0x09 <= c as u32 <= 0x0D || c as u32 == 0x20 || c as u32
            == 0x85 || c as u32 == 0xA0 || c as u32 == 0x1680 || 0x2000 <= c as u32 <= 0x200A
            || c as u32 == 0x2028 || c as u32 == 0x2029 || c as u32 == 0x202F || c as u32 == 0x205F
            || c as u32 == 0x3000),
        (0x09 <= c as u32 <= 0x0D || c as u32 == 0x20 || c as u32 == 0x85 || c as u32 == 0xA0
            || c as u32 == 0x1680 || 0x2000 <= c as u32 <= 0x200A || c as u32 == 0x2028 || c as u32
            == 0x2029 || c as u32 == 0x202F || c as u32 == 0x205F || c as u32 == 0x3000) ==> trim(
            seq![c] + s,
        ) == trim(s) && trim(s + seq![c]) == trim(s),
{
    let one = seq![c];
    assert(one.drop_first() =~= Seq::<char>::empty());
    assert(one.drop_last() =~= Seq::<char>::empty());
    assert(trim_start(Seq::<char>::empty()) == Seq::<char>::empty());
    assert(trim_end(Seq::<char>::empty()) == Seq::<char>::empty());
    if is_space(c) {
        assert(trim_start(one) == Seq::<char>::empty());
        // At the front.
        assert((one + s)[0] == c);
        assert((one + s).drop_first() =~= s);
        assert(trim_start(one + s) == trim_start(s));
        // At the back.
        lemma_trim_start_concat(s, one);
        let y = trim_start(s);
        if y.len() > 0 {
            assert(trim_start(s + one) == y + one);
            assert((y + one).drop_last() =~= y);
            assert((y + one).last() == c);
            assert(trim_end(y + one) == trim_end(y));
        } else {
            assert(trim_start(s + one) == Seq::<char>::empty());
        }
    } else {
        assert(trim_start(one) == one);
        assert(one.last() == c);
        assert(trim_end(one) == one);
    }
}

} // verus!
