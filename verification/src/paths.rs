//! Joining a directory and a file name, as `std::path::Path::join` does.

use vstd::prelude::*;

verus! {

/// Whether `name` is a single relative path component: not empty, and free of
/// path separators and drive colons.
pub open spec fn is_plain_component(name: Seq<char>) -> bool {
    name.len() > 0 && forall|i: int|
        0 <= i < name.len() ==> name[i] != '/' && name[i] != '\\' && name[i] != ':'
}

/// Whether `p` starts with the Windows verbatim prefix `\\?\`.
pub open spec fn is_verbatim(p: Seq<char>) -> bool {
    p.len() >= 4 && p.subrange(0, 4) == seq!['\\', '\\', '?', '\\']
}

/// What `base.join(name)` gives for a plain component `name`: the text always
/// ends with `name`; unless `base` is a Windows verbatim path, it is `base`
/// followed by `name`, with one separator between them where one is needed.
pub open spec fn joined(base: Seq<char>, name: Seq<char>, p: Seq<char>) -> bool {
    &&& p.len() >= name.len()
    &&& p.subrange(p.len() - name.len(), p.len() as int) == name
    &&& !is_verbatim(base) ==> (p == base + name || p == base + seq!['/'] + name || p == base
        + seq!['\\'] + name)
}

/// `std::path::Path::join` on UTF-8 text (the result is turned back into a
/// `String`, which loses nothing since both parts are UTF-8). For a plain
/// component `name`, std's `PathBuf::push` keeps `base`, adds the platform
/// separator unless `base` is empty or already ends with one (or is a bare drive
/// such as `C:`), and appends `name`; only verbatim Windows bases are rebuilt.
#[verifier::external_body]
pub(crate) fn join_path(base: &str, name: &str) -> (p: String)
    requires
        is_plain_component(name@),
    ensures
        joined(base@, name@, p@),
{
    std::path::Path::new(base).join(name).to_string_lossy().into_owned()
}

} // verus!
