//! Paths as character sequences separated by `/`.
use vstd::prelude::*;
use crate::text::{chars_of, push_chars, string_from};

verus! {

/// The separator between path components.
pub open spec fn sep() -> char {
    '/'
}

/// `name` placed inside `dir`; nothing is inserted after an empty `dir`
/// or one that already ends in the separator.
pub open spec fn join_spec(dir: Seq<char>, name: Seq<char>) -> Seq<char> {
    if dir.len() == 0 || dir.last() == sep() {
        dir + name
    } else {
        dir.push(sep()) + name
    }
}

/// Index of the last occurrence of `c` in `s`, or -1.
pub open spec fn last_index_of(s: Seq<char>, c: char) -> int
    decreases s.len(),
{
    if s.len() == 0 {
        -1
    } else if s.last() == c {
        s.len() - 1
    } else {
        last_index_of(s.drop_last(), c)
    }
}

/// Everything up to and including the last separator.
pub open spec fn dir_prefix(p: Seq<char>) -> Seq<char> {
    p.subrange(0, last_index_of(p, sep()) + 1)
}

/// The last component of a path.
pub open spec fn file_name_of(p: Seq<char>) -> Seq<char> {
    p.subrange(last_index_of(p, sep()) + 1, p.len() as int)
}

/// Where the extension of a file name starts: at its last dot, unless that
/// dot is the first character or there is none, in which case there is no
/// extension and the whole name is the stem.
pub open spec fn ext_start(name: Seq<char>) -> int {
    let d = last_index_of(name, '.');
    if d <= 0 {
        name.len() as int
    } else {
        d
    }
}

/// The file name without its extension.
pub open spec fn stem_of(name: Seq<char>) -> Seq<char> {
    name.subrange(0, ext_start(name))
}

/// The extension with its leading dot, or empty.
pub open spec fn extension_of(name: Seq<char>) -> Seq<char> {
    name.subrange(ext_start(name), name.len() as int)
}

/// The name of the log file kept inside an organised directory.
pub open spec fn log_file_name() -> Seq<char> {
    ".organize_log.json"@
}

proof fn lemma_last_index_bounds(s: Seq<char>, c: char)
    ensures
        -1 <= last_index_of(s, c) < s.len(),
        last_index_of(s, c) >= 0 ==> s[last_index_of(s, c)] == c,
        forall|k: int| last_index_of(s, c) < k < s.len() ==> s[k] != c,
    decreases s.len(),
{
    if s.len() > 0 && s.last() != c {
        lemma_last_index_bounds(s.drop_last(), c);
        assert forall|k: int| last_index_of(s, c) < k < s.len() implies s[k] != c by {
            if k < s.len() - 1 {
                assert(s[k] == s.drop_last()[k]);
            }
        }
    }
}

/// One past the index of the last `c` in `cs`, or 0 where there is none.
pub(crate) fn after_last(cs: &Vec<char>, c: char) -> (r: usize)
    ensures
        r == last_index_of(cs@, c) + 1,
        r <= cs@.len(),
{
    proof {
        lemma_last_index_bounds(cs@, c);
    }
    let mut i: usize = cs.len();
    assert(cs@.subrange(0, i as int) =~= cs@);
    while i > 0
        invariant
            i <= cs@.len(),
            last_index_of(cs@, c) == last_index_of(cs@.subrange(0, i as int), c),
        decreases i,
    {
        let ghost pre = cs@.subrange(0, i as int);
        if cs[i - 1] == c {
            return i;
        }
        assert(pre.drop_last() =~= cs@.subrange(0, i - 1));
        i -= 1;
    }
    0
}

/// Two names placed inside the same folder give the same path only if
/// they are the same.
pub proof fn lemma_join_injective(d: Seq<char>, a: Seq<char>, b: Seq<char>)
    requires
        join_spec(d, a) == join_spec(d, b),
    ensures
        a == b,
{
    let ja = join_spec(d, a);
    let k = ja.len() - a.len();
    assert(a =~= ja.subrange(k, ja.len() as int));
    assert(b =~= join_spec(d, b).subrange(k, ja.len() as int));
}

/// `name` placed inside `dir`.
pub fn join(dir: &str, name: &str) -> (r: String)
    ensures
        r@ == join_spec(dir@, name@),
{
    let mut out = String::from_str(dir);
    let n = dir.unicode_len();
    if n > 0 && dir.get_char(n - 1) != '/' {
        crate::text::push_char(&mut out, '/');
    }
    out.append(name);
    out
}

/// The path of the log file of `folder`.
pub fn get_log_path(folder: &str) -> (r: String)
    ensures
        r@ == join_spec(folder@, log_file_name()),
{
    join(folder, ".organize_log.json")
}

/// A path cut at its last separator: the directory part with the
/// separator, and the file name split into stem and extension.
pub(crate) fn split_path(p: &String) -> (r: (String, String, String))
    ensures
        r.0@ == dir_prefix(p@),
        r.1@ == stem_of(file_name_of(p@)),
        r.2@ == extension_of(file_name_of(p@)),
{
    let cs = chars_of(p.as_str());
    proof {
        lemma_last_index_bounds(cs@, '/');
    }
    let start = after_last(&cs, '/');
    let dir = string_from(&cs, 0, start);
    let name = string_from(&cs, start, cs.len());
    let ncs = chars_of(name.as_str());
    proof {
        lemma_last_index_bounds(ncs@, '.');
    }
    let d = after_last(&ncs, '.');
    let e: usize = if d <= 1 { ncs.len() } else { d - 1 };
    let stem = string_from(&ncs, 0, e);
    let ext = string_from(&ncs, e, ncs.len());
    (dir, stem, ext)
}

/// `s` with the characters of `cs` appended.
pub(crate) fn with_chars(s: String, cs: &Vec<char>) -> (r: String)
    ensures
        r@ == s@ + cs@,
{
    let mut out = s;
    push_chars(&mut out, cs);
    out
}

} // verus!
