//! One spelling for a worktree's path, used everywhere fufu records, prints,
//! or compares one: the one git writes into the files it reads back.

use vstd::prelude::*;

verus! {

/// A path's text spelled the way git writes one: every `separator` a
/// forward slash. Where the separator already is `/` the text stands as
/// it is, and a backslash in a Unix name stays a backslash.
pub fn as_git(text: &str, separator: char) -> (r: String)
    ensures
        r@ == (if separator == '/' {
            text@
        } else {
            text@.map_values(|c: char| if c == separator { '/' } else { c })
        }),
{
    if separator == '/' {
        return crate::text::owned(text);
    }
    let v = crate::text::chars_of(text);
    let mut out: Vec<char> = Vec::new();
    let mut i: usize = 0;
    while i < v.len()
        invariant
            i <= v@.len(),
            v@ == text@,
            out@ == v@.take(i as int).map_values(|c: char| if c == separator { '/' } else { c }),
        decreases v.len() - i,
    {
        if v[i] == separator {
            out.push('/');
        } else {
            out.push(v[i]);
        }
        i += 1;
        assert(out@ =~= v@.take(i as int).map_values(|c: char| if c == separator { '/' } else { c }));
    }
    assert(v@.take(v@.len() as int) =~= v@);
    crate::text::string_of(&out)
}

/// Whether `c` is an ASCII letter.
pub open spec fn is_letter(c: char) -> bool {
    ('a' <= c && c <= 'z') || ('A' <= c && c <= 'Z')
}

/// `\\?\C:\dir` as `C:\dir`: only the verbatim disk prefix is dropped. A
/// path without that prefix, a Unix path among them, stands as it is.
pub fn plain(text: &str) -> (r: String)
    ensures
        r@ == (if text@.len() >= 6 && text@.take(4) == seq!['\\', '\\', '?', '\\'] && is_letter(text@[4]) && text@[5] == ':' {
            text@.skip(4)
        } else {
            text@
        }),
{
    let v = crate::text::chars_of(text);
    if v.len() >= 6 && v[0] == '\\' && v[1] == '\\' && v[2] == '?' && v[3] == '\\'
        && (('a' <= v[4] && v[4] <= 'z') || ('A' <= v[4] && v[4] <= 'Z')) && v[5] == ':'
    {
        assert(v@.take(4) =~= seq!['\\', '\\', '?', '\\']);
        return crate::text::string_of(&crate::text::skip_chars(&v, 4));
    }
    proof {
        if v@.len() >= 6 && v@.take(4) == seq!['\\', '\\', '?', '\\'] {
            assert(v@.take(4)[0] == v@[0]);
            assert(v@.take(4)[1] == v@[1]);
            assert(v@.take(4)[2] == v@[2]);
            assert(v@.take(4)[3] == v@[3]);
        }
    }
    crate::text::owned(text)
}

} // verus!
