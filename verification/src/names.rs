//! The rules a new file name must follow.

use vstd::prelude::*;
use vstd::utf8::encode_utf8;

use crate::text::{chars_of, char_is_control, eq_ignore_ascii_case, is_control, seq_eq_ignore_ascii_case};

verus! {

pub const MSG_NAME_EMPTY: &'static str = "文件名为空";

pub const MSG_NAME_DOTS: &'static str = "文件名不能是 . 或 ..";

pub const MSG_NAME_SEPARATOR: &'static str = "新文件名称不能包含路径分隔符，只能是文件名";

pub const MSG_NAME_ILLEGAL_CHAR: &'static str = "文件名包含非法字符: ";

pub const MSG_NAME_TRAILING: &'static str = "Windows 不允许文件名以空格或点结尾";

pub const MSG_NAME_TOO_LONG: &'static str = "文件名过长（超过 255 字节/字符）";

pub const MSG_NAME_RESERVED: &'static str = "Windows 保留设备名不可用作文件名: ";

/// What `format!("{:?}", c)` writes for the character `c`.
pub uninterp spec fn char_debug_text(c: char) -> Seq<char>;

/// Formats a character with its `Debug` impl from std (quoted, with escapes);
/// the result is taken to be `char_debug_text(c)`, a function of `c` alone.
#[verifier::external_body]
fn debug_char(c: char) -> (s: String)
    ensures
        s@ == char_debug_text(c),
{
    format!("{c:?}")
}

/// Device names that Windows reserves, whatever the extension.
pub open spec fn reserved_names() -> Seq<Seq<char>> {
    seq![
        "CON"@, "PRN"@, "AUX"@, "NUL"@, "COM1"@, "COM2"@, "COM3"@, "COM4"@, "COM5"@, "COM6"@,
        "COM7"@, "COM8"@, "COM9"@, "LPT1"@, "LPT2"@, "LPT3"@, "LPT4"@, "LPT5"@, "LPT6"@,
        "LPT7"@, "LPT8"@, "LPT9"@,
    ]
}

fn reserved_name_list() -> (v: Vec<&'static str>)
    ensures
        v@.len() == reserved_names().len(),
        forall|i: int| 0 <= i < v@.len() ==> (#[trigger] v@[i])@ == reserved_names()[i],
{
    let v = vec![
        "CON", "PRN", "AUX", "NUL", "COM1", "COM2", "COM3", "COM4", "COM5", "COM6", "COM7",
        "COM8", "COM9", "LPT1", "LPT2", "LPT3", "LPT4", "LPT5", "LPT6", "LPT7", "LPT8", "LPT9",
    ];
    v
}

/// A character that Windows does not allow in a file name.
pub open spec fn is_illegal_char(c: char) -> bool {
    is_control(c) || c == '<' || c == '>' || c == ':' || c == '"' || c == '|' || c == '?' || c
        == '*'
}

/// Whether some character of `s` is `c`.
pub open spec fn has_char(s: Seq<char>, c: char) -> bool {
    exists|i: int| 0 <= i < s.len() && s[i] == c
}

/// The index of the first `c` in `s`, or the length of `s` where there is none.
pub open spec fn first_index_of(s: Seq<char>, c: char) -> int {
    if has_char(s, c) {
        choose|i: int| 0 <= i < s.len() && s[i] == c && forall|j: int| 0 <= j < i ==> s[j] != c
    } else {
        s.len() as int
    }
}

/// Whether some character of `s` is illegal.
pub open spec fn has_illegal(s: Seq<char>) -> bool {
    exists|i: int| 0 <= i < s.len() && is_illegal_char(s[i])
}

/// The first illegal character of `s`.
pub open spec fn first_illegal(s: Seq<char>) -> char
    recommends
        has_illegal(s),
{
    let i = choose|i: int|
        0 <= i < s.len() && is_illegal_char(s[i]) && forall|j: int|
            0 <= j < i ==> !is_illegal_char(s[j]);
    s[i]
}

/// The part of a name before its first dot (the whole name when it has none).
pub open spec fn name_stem(s: Seq<char>) -> Seq<char> {
    s.subrange(0, first_index_of(s, '.'))
}

/// Whether `stem` is a reserved device name, compared without ASCII case.
pub open spec fn is_reserved_stem(stem: Seq<char>) -> bool {
    exists|i: int| 0 <= i < reserved_names().len() && eq_ignore_ascii_case(stem, reserved_names()[i])
}

/// The verdict on a proposed file name: `Ok` or the reason it is refused.
/// The checks are made in this order and the first that fails decides.
pub open spec fn check_filename(s: Seq<char>) -> Result<(), Seq<char>> {
    if s.len() == 0 {
        Err(MSG_NAME_EMPTY@)
    } else if s == seq!['.'] || s == seq!['.', '.'] {
        Err(MSG_NAME_DOTS@)
    } else if has_char(s, '/') || has_char(s, '\\') {
        Err(MSG_NAME_SEPARATOR@)
    } else if has_illegal(s) {
        Err(MSG_NAME_ILLEGAL_CHAR@ + char_debug_text(first_illegal(s)))
    } else if s.last() == ' ' || s.last() == '.' {
        Err(MSG_NAME_TRAILING@)
    } else if encode_utf8(s).len() > 255 {
        Err(MSG_NAME_TOO_LONG@)
    } else if is_reserved_stem(name_stem(s)) {
        Err(MSG_NAME_RESERVED@ + name_stem(s))
    } else {
        Ok(())
    }
}

/// Where some character satisfies `p`, a first one does.
proof fn lemma_first_witness(s: Seq<char>, p: spec_fn(char) -> bool, i: int)
    requires
        0 <= i < s.len(),
        p(s[i]),
    ensures
        exists|k: int| 0 <= k <= i && p(s[k]) && forall|j: int| 0 <= j < k ==> !p(s[j]),
    decreases i,
{
    if exists|j: int| 0 <= j < i && p(s[j]) {
        let j = choose|j: int| 0 <= j < i && p(s[j]);
        lemma_first_witness(s, p, j);
    } else {
        assert(forall|j: int| 0 <= j < i ==> !p(s[j]));
    }
}

proof fn lemma_first_index_of(s: Seq<char>, c: char)
    ensures
        has_char(s, c) ==> 0 <= first_index_of(s, c) < s.len() && s[first_index_of(s, c)] == c,
        !has_char(s, c) ==> first_index_of(s, c) == s.len(),
{
    if has_char(s, c) {
        let i = choose|i: int| 0 <= i < s.len() && s[i] == c;
        let p = |x: char| x == c;
        lemma_first_witness(s, p, i);
        let k = choose|k: int| 0 <= k <= i && p(s[k]) && forall|j: int| 0 <= j < k ==> !p(s[j]);
        assert(0 <= k < s.len() && s[k] == c && forall|j: int| 0 <= j < k ==> s[j] != c);
    }
}

proof fn lemma_first_illegal(s: Seq<char>)
    requires
        has_illegal(s),
    ensures
        exists|i: int|
            0 <= i < s.len() && is_illegal_char(s[i]) && forall|j: int|
                0 <= j < i ==> !is_illegal_char(s[j]),
{
    let i = choose|i: int| 0 <= i < s.len() && is_illegal_char(s[i]);
    let p = |x: char| is_illegal_char(x);
    lemma_first_witness(s, p, i);
    let k = choose|k: int| 0 <= k <= i && p(s[k]) && forall|j: int| 0 <= j < k ==> !p(s[j]);
    assert(0 <= k < s.len() && is_illegal_char(s[k]) && forall|j: int|
        0 <= j < k ==> !is_illegal_char(s[j]));
}

pub fn index_of_char(cs: &Vec<char>, c: char) -> (i: usize)
    ensures
        i == first_index_of(cs@, c),
{
    let mut i: usize = 0;
    while i < cs.len()
        invariant
            i <= cs@.len(),
            forall|j: int| 0 <= j < i ==> cs@[j] != c,
        decreases cs.len() - i,
    {
        if cs[i] == c {
            proof {
                assert(has_char(cs@, c));
                let k = choose|k: int|
                    0 <= k < cs@.len() && cs@[k] == c && forall|j: int| 0 <= j < k ==> cs@[j] != c;
                assert(k == i as int) by {
                    if k < i {
                        assert(cs@[k] != c);
                    }
                    if k > i {
                        assert(cs@[i as int] != c);
                    }
                }
            }
            return i;
        }
        i = i + 1;
    }
    assert(!has_char(cs@, c));
    i
}

fn is_illegal(c: char) -> (b: bool)
    ensures
        b == is_illegal_char(c),
{
    char_is_control(c) || c == '<' || c == '>' || c == ':' || c == '"' || c == '|' || c == '?'
        || c == '*'
}

fn first_illegal_index(cs: &Vec<char>) -> (r: Option<usize>)
    ensures
        r is None <==> !has_illegal(cs@),
        r matches Some(i) ==> i < cs@.len() && cs@[i as int] == first_illegal(cs@),
{
    let n = cs.len();
    let mut i: usize = 0;
    while i < n
        invariant
            n == cs@.len(),
            i <= n,
            forall|j: int| 0 <= j < i ==> !is_illegal_char(#[trigger] cs@[j]),
        decreases n - i,
    {
        if is_illegal(cs[i]) {
            proof {
                assert(has_illegal(cs@));
                lemma_first_illegal(cs@);
                let k = choose|k: int|
                    0 <= k < cs@.len() && is_illegal_char(cs@[k]) && forall|j: int|
                        0 <= j < k ==> !is_illegal_char(cs@[j]);
                assert(k == i as int) by {
                    if k < i {
                        assert(!is_illegal_char(cs@[k]));
                    }
                    if k > i {
                        assert(!is_illegal_char(cs@[i as int]));
                    }
                }
            }
            return Some(i);
        }
        i = i + 1;
    }
    None
}

fn is_reserved(stem: &Vec<char>) -> (b: bool)
    ensures
        b == is_reserved_stem(stem@),
{
    let reserved = reserved_name_list();
    let mut k: usize = 0;
    while k < reserved.len()
        invariant
            reserved@.len() == reserved_names().len(),
            forall|i: int| 0 <= i < reserved@.len() ==> (#[trigger] reserved@[i])@ == reserved_names()[i],
            k <= reserved@.len(),
            forall|j: int| 0 <= j < k ==> !eq_ignore_ascii_case(stem@, #[trigger] reserved_names()[j]),
        decreases reserved.len() - k,
    {
        if seq_eq_ignore_ascii_case(stem, reserved[k]) {
            assert(eq_ignore_ascii_case(stem@, reserved_names()[k as int]));
            return true;
        }
        k = k + 1;
    }
    false
}

/// Checks that `name` can be used as a file name on Windows and elsewhere.
pub fn validate_filename(name: &str) -> (r: Result<(), String>)
    ensures
        match (r, check_filename(name@)) {
            (Ok(()), Ok(())) => true,
            (Err(m), Err(e)) => m@ == e,
            _ => false,
        },
{
    let cs = chars_of(name);
    let n = cs.len();
    if n == 0 {
        return Err(String::from_str(MSG_NAME_EMPTY));
    }
    if (n == 1 && cs[0] == '.') || (n == 2 && cs[0] == '.' && cs[1] == '.') {
        assert(n == 1 ==> cs@ =~= seq!['.']);
        assert(n == 2 ==> cs@ =~= seq!['.', '.']);
        return Err(String::from_str(MSG_NAME_DOTS));
    }
    assert(cs@ != seq!['.']) by {
        if cs@ == seq!['.'] {
            assert(cs@[0] == '.');
        }
    }
    assert(cs@ != seq!['.', '.']) by {
        if cs@ == seq!['.', '.'] {
            assert(cs@[0] == '.' && cs@[1] == '.');
        }
    }
    let slash = index_of_char(&cs, '/');
    let backslash = index_of_char(&cs, '\\');
    proof {
        lemma_first_index_of(cs@, '/');
        lemma_first_index_of(cs@, '\\');
    }
    if slash < n || backslash < n {
        return Err(String::from_str(MSG_NAME_SEPARATOR));
    }
    match first_illegal_index(&cs) {
        Some(i) => {
            let mut msg = String::from_str(MSG_NAME_ILLEGAL_CHAR);
            let shown = debug_char(cs[i]);
            msg.append(shown.as_str());
            return Err(msg);
        },
        None => {},
    }
    let last = cs[n - 1];
    assert(last == name@.last());
    if last == ' ' || last == '.' {
        return Err(String::from_str(MSG_NAME_TRAILING));
    }
    if name.as_bytes().len() > 255 {
        return Err(String::from_str(MSG_NAME_TOO_LONG));
    }
    let dot = index_of_char(&cs, '.');
    proof {
        lemma_first_index_of(cs@, '.');
    }
    let stem_str = name.substring_char(0, dot);
    let stem = chars_of(stem_str);
    if is_reserved(&stem) {
        let mut msg = String::from_str(MSG_NAME_RESERVED);
        msg.append(stem_str);
        return Err(msg);
    }
    Ok(())
}


/// A name holding a character that Windows forbids in file names is refused:
/// any of `< > : " | ? *`, a path separator `/` or `\`, or a control character
/// (U+0000 to U+001F, U+007F to U+009F), wherever it stands.
pub proof fn law_forbidden_characters_refused(s: Seq<char>, i: int)
    requires
        0 <= i < s.len(),
        s[i] == '<' || s[i] == '>' || s[i] == ':' || s[i] == '"' || s[i] == '|' || s[i] == '?'
            || s[i] == '*' || s[i] == '/' || s[i] == '\\' || s[i] as u32 <= 0x1F || (0x7F
            <= s[i] as u32 <= 0x9F),
    ensures
        check_filename(s) is Err,
{
    if s == seq!['.'] || s == seq!['.', '.'] {
        assert(s[i] == '.');
    } else if !(has_char(s, '/') || has_char(s, '\\')) {
        assert(s[i] != '/' && s[i] != '\\');
        assert(is_illegal_char(s[i]));
        assert(has_illegal(s));
    }
}

} // verus!
