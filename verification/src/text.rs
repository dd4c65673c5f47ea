//! Text primitives the rest of the library is written in: a string seen as
//! its sequence of characters, with the handful of operations the formats
//! here need, each proved against a statement of what it computes.

use vstd::prelude::*;

verus! {

/// Appends one character to a string: `String::push`.
#[verifier::external_body]
pub(crate) fn push_char(s: &mut String, c: char)
    ensures
        final(s)@ == old(s)@.push(c),
{
    s.push(c);
}

/// The characters of a string, in order.
pub fn chars_of(s: &str) -> (v: Vec<char>)
    ensures
        v@ == s@,
{
    let n = s.unicode_len();
    let mut v: Vec<char> = Vec::new();
    let mut i: usize = 0;
    while i < n
        invariant
            n == s@.len(),
            i <= n,
            v@ == s@.subrange(0, i as int),
        decreases n - i,
    {
        v.push(s.get_char(i));
        i += 1;
    }
    v
}

/// An owned copy of `s`.
pub fn owned(s: &str) -> (r: String)
    ensures
        r@ == s@,
{
    s.to_owned()
}

/// The string spelled by a sequence of characters.
pub fn string_of(v: &Vec<char>) -> (s: String)
    ensures
        s@ == v@,
{
    let mut s = String::new();
    let mut i: usize = 0;
    while i < v.len()
        invariant
            i <= v.len(),
            s@ == v@.subrange(0, i as int),
        decreases v.len() - i,
    {
        push_char(&mut s, v[i]);
        i += 1;
    }
    s
}

} // verus!

verus! {

/// Unicode's `White_Space` property, which is what `char::is_whitespace`
/// and the `trim` family test: the five ASCII controls from tab to carriage
/// return, space, next line, no-break space, ogham space mark, the eleven
/// spaces from en quad to hair space, the line and paragraph separators,
/// narrow no-break space, medium mathematical space, and ideographic space.
pub open spec fn is_ws(c: char) -> bool {
    let n = c as u32;
    ||| (0x9 <= n && n <= 0xd)
    ||| n == 0x20
    ||| n == 0x85
    ||| n == 0xa0
    ||| n == 0x1680
    ||| (0x2000 <= n && n <= 0x200a)
    ||| n == 0x2028
    ||| n == 0x2029
    ||| n == 0x202f
    ||| n == 0x205f
    ||| n == 0x3000
}

/// An optional string's characters.
pub open spec fn opt_view(o: Option<String>) -> Option<Seq<char>> {
    match o {
        Some(s) => Some(s@),
        None => None,
    }
}

/// How long `s` is once its trailing whitespace is gone.
pub open spec fn trim_end_len(s: Seq<char>) -> nat
    decreases s.len(),
{
    if s.len() == 0 {
        0
    } else if is_ws(s.last()) {
        trim_end_len(s.drop_last())
    } else {
        s.len()
    }
}

/// How many whitespace characters `s` starts with.
pub open spec fn lead_ws_len(s: Seq<char>) -> nat
    decreases s.len(),
{
    if s.len() == 0 {
        0
    } else if is_ws(s[0]) {
        1 + lead_ws_len(s.drop_first())
    } else {
        0
    }
}

/// `s` without its trailing whitespace: `str::trim_end`.
pub open spec fn trimmed_end(s: Seq<char>) -> Seq<char> {
    s.subrange(0, trim_end_len(s) as int)
}

/// `s` without leading or trailing whitespace: `str::trim`.
pub open spec fn trimmed(s: Seq<char>) -> Seq<char> {
    trimmed_end(s.skip(lead_ws_len(s) as int))
}

/// The number of leading positions on which `a` and `b` agree.
pub open spec fn shared_len(a: Seq<char>, b: Seq<char>) -> nat
    decreases a.len(),
{
    if a.len() == 0 || b.len() == 0 || a[0] != b[0] {
        0
    } else {
        1 + shared_len(a.drop_first(), b.drop_first())
    }
}

/// Strict lexicographic order by code point, which is the byte order of
/// the UTF-8 encodings and so the order `String`'s `Ord` keeps.
pub open spec fn seq_lt(a: Seq<char>, b: Seq<char>) -> bool
    decreases a.len(),
{
    if b.len() == 0 {
        false
    } else if a.len() == 0 {
        true
    } else if a[0] != b[0] {
        (a[0] as int) < (b[0] as int)
    } else {
        seq_lt(a.drop_first(), b.drop_first())
    }
}

/// The decimal spelling of a natural number, most significant digit first.
pub open spec fn decimal(n: nat) -> Seq<char>
    decreases n,
{
    if n < 10 {
        seq![digit_char(n)]
    } else {
        decimal(n / 10).push(digit_char(n % 10))
    }
}

/// The character of one decimal digit.
pub open spec fn digit_char(d: nat) -> char {
    ((d + 48) as u8) as char
}

pub proof fn lemma_trim_end_len_bound(s: Seq<char>)
    ensures
        trim_end_len(s) <= s.len(),
        trim_end_len(s) > 0 ==> !is_ws(s[trim_end_len(s) - 1]),
        forall|i: int| trim_end_len(s) <= i < s.len() ==> is_ws(#[trigger] s[i]),
    decreases s.len(),
{
    if s.len() > 0 && is_ws(s.last()) {
        lemma_trim_end_len_bound(s.drop_last());
        assert forall|i: int| trim_end_len(s) <= i < s.len() implies is_ws(#[trigger] s[i]) by {
            if i < s.len() - 1 {
                assert(s[i] == s.drop_last()[i]);
            }
        }
    }
}

pub proof fn lemma_lead_ws_len_bound(s: Seq<char>)
    ensures
        lead_ws_len(s) <= s.len(),
        lead_ws_len(s) < s.len() ==> !is_ws(s[lead_ws_len(s) as int]),
        forall|i: int| 0 <= i < lead_ws_len(s) ==> is_ws(#[trigger] s[i]),
    decreases s.len(),
{
    if s.len() > 0 && is_ws(s[0]) {
        lemma_lead_ws_len_bound(s.drop_first());
        assert forall|i: int| 0 <= i < lead_ws_len(s) implies is_ws(#[trigger] s[i]) by {
            if i > 0 {
                assert(s[i] == s.drop_first()[i - 1]);
            }
        }
    }
}

pub proof fn lemma_shared_len_bound(a: Seq<char>, b: Seq<char>)
    ensures
        shared_len(a, b) <= a.len(),
        shared_len(a, b) <= b.len(),
        forall|i: int| 0 <= i < shared_len(a, b) ==> a[i] == b[i],
        shared_len(a, b) < a.len() && shared_len(a, b) < b.len() ==> a[shared_len(a, b) as int]
            != b[shared_len(a, b) as int],
    decreases a.len(),
{
    if a.len() > 0 && b.len() > 0 && a[0] == b[0] {
        lemma_shared_len_bound(a.drop_first(), b.drop_first());
        assert forall|i: int| 0 <= i < shared_len(a, b) implies a[i] == b[i] by {
            if i > 0 {
                assert(a[i] == a.drop_first()[i - 1]);
                assert(b[i] == b.drop_first()[i - 1]);
            }
        }
    }
}

/// The trailing-whitespace trim depends only on where the last non-blank
/// character stands: trimming what is already trimmed changes nothing.
pub proof fn lemma_trimmed_end_idempotent(s: Seq<char>)
    ensures
        trimmed_end(trimmed_end(s)) == trimmed_end(s),
    decreases s.len(),
{
    lemma_trim_end_len_bound(s);
    let t = trimmed_end(s);
    if t.len() > 0 {
        assert(t.last() == s[trim_end_len(s) - 1]);
    }
}

/// Nothing sorts before itself.
pub proof fn lemma_seq_lt_irreflexive(a: Seq<char>)
    ensures
        !seq_lt(a, a),
    decreases a.len(),
{
    if a.len() > 0 {
        lemma_seq_lt_irreflexive(a.drop_first());
    }
}

/// The order is a strict total order: exactly one of `a < b`, `a == b`,
/// `b < a` holds.
pub proof fn lemma_seq_lt_total(a: Seq<char>, b: Seq<char>)
    ensures
        seq_lt(a, b) || a == b || seq_lt(b, a),
        !(seq_lt(a, b) && seq_lt(b, a)),
        seq_lt(a, b) ==> a != b,
    decreases a.len(),
{
    if a.len() > 0 && b.len() > 0 && a[0] == b[0] {
        let (ta, tb) = (a.drop_first(), b.drop_first());
        lemma_seq_lt_total(ta, tb);
        if ta == tb {
            assert forall|i: int| 0 <= i < a.len() implies a[i] == b[i] by {
                if i > 0 {
                    assert(a[i] == ta[i - 1]);
                    assert(b[i] == tb[i - 1]);
                }
            }
            assert(a =~= b);
        }
    }
    if seq_lt(a, b) {
        lemma_seq_lt_irreflexive(a);
    }
    if a.len() > 0 && b.len() > 0 && a[0] != b[0] {
        let (x, y) = (a[0], b[0]);
        assert((x as int) != (y as int));
    }
    if a.len() == 0 && b.len() == 0 {
        assert(a =~= b);
    }
}

/// The order is transitive.
pub proof fn lemma_seq_lt_transitive(a: Seq<char>, b: Seq<char>, c: Seq<char>)
    requires
        seq_lt(a, b),
        seq_lt(b, c),
    ensures
        seq_lt(a, c),
    decreases a.len(),
{
    if a.len() > 0 && b.len() > 0 && c.len() > 0 && a[0] == b[0] && b[0] == c[0] {
        lemma_seq_lt_transitive(a.drop_first(), b.drop_first(), c.drop_first());
    }
}

/// Whether `c` is whitespace: `char::is_whitespace`.
pub fn is_whitespace(c: char) -> (r: bool)
    ensures
        r == is_ws(c),
{
    let n = c as u32;
    (0x9 <= n && n <= 0xd) || n == 0x20 || n == 0x85 || n == 0xa0 || n == 0x1680 || (0x2000 <= n
        && n <= 0x200a) || n == 0x2028 || n == 0x2029 || n == 0x202f || n == 0x205f || n == 0x3000
}

/// `s` without its trailing whitespace.
pub fn trim_end_chars(s: &Vec<char>) -> (r: Vec<char>)
    ensures
        r@ == trimmed_end(s@),
{
    let mut k: usize = s.len();
    assert(s@.subrange(0, k as int) =~= s@);
    while k > 0 && is_whitespace(s[k - 1])
        invariant
            k <= s.len(),
            trim_end_len(s@.subrange(0, k as int)) == trim_end_len(s@),
        decreases k,
    {
        assert(s@.subrange(0, k as int).drop_last() =~= s@.subrange(0, k - 1));
        k -= 1;
    }
    assert(s@.subrange(0, k as int) =~= s@.subrange(0, k as int));
    if k > 0 {
        assert(s@.subrange(0, k as int).last() == s@[k - 1]);
    }
    let mut r: Vec<char> = Vec::new();
    let mut i: usize = 0;
    while i < k
        invariant
            i <= k,
            k <= s.len(),
            r@ == s@.subrange(0, i as int),
        decreases k - i,
    {
        r.push(s[i]);
        i += 1;
    }
    r
}

/// `s` without leading or trailing whitespace.
pub fn trim_chars(s: &Vec<char>) -> (r: Vec<char>)
    ensures
        r@ == trimmed(s@),
{
    let mut j: usize = 0;
    assert(s@.skip(0) =~= s@);
    while j < s.len() && is_whitespace(s[j])
        invariant
            j <= s.len(),
            lead_ws_len(s@) == j + lead_ws_len(s@.skip(j as int)),
        decreases s.len() - j,
    {
        assert(s@.skip(j as int).drop_first() =~= s@.skip(j + 1));
        j += 1;
    }
    if j < s.len() {
        assert(s@.skip(j as int)[0] == s@[j as int]);
    }
    assert(lead_ws_len(s@.skip(j as int)) == 0);
    let mut rest: Vec<char> = Vec::new();
    let mut i: usize = j;
    while i < s.len()
        invariant
            j <= i <= s.len(),
            rest@ == s@.subrange(j as int, i as int),
        decreases s.len() - i,
    {
        rest.push(s[i]);
        i += 1;
    }
    assert(rest@ =~= s@.skip(lead_ws_len(s@) as int));
    trim_end_chars(&rest)
}

/// Whether `p` is a prefix of `s`.
pub fn starts_with_chars(s: &Vec<char>, p: &Vec<char>) -> (r: bool)
    ensures
        r == p@.is_prefix_of(s@),
{
    if p.len() > s.len() {
        return false;
    }
    let mut i: usize = 0;
    while i < p.len()
        invariant
            p.len() <= s.len(),
            i <= p.len(),
            forall|k: int| 0 <= k < i ==> p@[k] == s@[k],
        decreases p.len() - i,
    {
        if p[i] != s[i] {
            return false;
        }
        i += 1;
    }
    assert(s@.subrange(0, p@.len() as int) =~= p@);
    true
}

/// Whether two character sequences are equal.
pub fn chars_eq(a: &Vec<char>, b: &Vec<char>) -> (r: bool)
    ensures
        r == (a@ == b@),
{
    if a.len() != b.len() {
        return false;
    }
    let r = starts_with_chars(a, b);
    if r {
        assert(a@ =~= b@);
    }
    r
}

/// Whether two strings are equal.
pub fn str_eq(a: &str, b: &str) -> (r: bool)
    ensures
        r == (a@ == b@),
{
    chars_eq(&chars_of(a), &chars_of(b))
}

/// Whether `p` is a prefix of `s`.
pub fn str_starts_with(s: &str, p: &str) -> (r: bool)
    ensures
        r == p@.is_prefix_of(s@),
{
    starts_with_chars(&chars_of(s), &chars_of(p))
}

/// The characters of `s` from position `from` on.
pub fn skip_chars(s: &Vec<char>, from: usize) -> (r: Vec<char>)
    requires
        from <= s.len(),
    ensures
        r@ == s@.skip(from as int),
{
    let mut r: Vec<char> = Vec::new();
    let mut i: usize = from;
    while i < s.len()
        invariant
            from <= i <= s.len(),
            r@ == s@.subrange(from as int, i as int),
        decreases s.len() - i,
    {
        r.push(s[i]);
        i += 1;
    }
    r
}

/// `s` with `p` taken off its front, when `s` starts with `p`:
/// `str::strip_prefix`.
pub fn strip_prefix(s: &str, p: &str) -> (r: Option<String>)
    ensures
        r is Some <==> p@.is_prefix_of(s@),
        r matches Some(t) ==> t@ == s@.skip(p@.len() as int),
{
    let sv = chars_of(s);
    let pv = chars_of(p);
    if starts_with_chars(&sv, &pv) {
        Some(string_of(&skip_chars(&sv, pv.len())))
    } else {
        None
    }
}

/// `a` followed by `b`.
pub fn concat(a: &str, b: &str) -> (r: String)
    ensures
        r@ == a@ + b@,
{
    let mut v = chars_of(a);
    let w = chars_of(b);
    let mut i: usize = 0;
    let ghost a0 = v@;
    while i < w.len()
        invariant
            i <= w.len(),
            v@ == a0 + w@.subrange(0, i as int),
        decreases w.len() - i,
    {
        v.push(w[i]);
        i += 1;
        assert(v@ =~= a0 + w@.subrange(0, i as int));
    }
    assert(w@.subrange(0, w.len() as int) =~= w@);
    string_of(&v)
}

/// Appends `b` to `v`.
pub fn extend_chars(v: &mut Vec<char>, b: &str)
    ensures
        final(v)@ == old(v)@ + b@,
{
    let w = chars_of(b);
    let mut i: usize = 0;
    let ghost a0 = v@;
    while i < w.len()
        invariant
            i <= w.len(),
            v@ == a0 + w@.subrange(0, i as int),
        decreases w.len() - i,
    {
        v.push(w[i]);
        i += 1;
        assert(v@ =~= a0 + w@.subrange(0, i as int));
    }
    assert(w@.subrange(0, w.len() as int) =~= w@);
}

/// How many leading characters `a` and `b` share.
pub fn common_prefix_chars(a: &Vec<char>, b: &Vec<char>) -> (n: usize)
    ensures
        n == shared_len(a@, b@),
{
    let mut i: usize = 0;
    assert(a@.skip(0) =~= a@);
    assert(b@.skip(0) =~= b@);
    while i < a.len() && i < b.len() && a[i] == b[i]
        invariant
            i <= a.len(),
            i <= b.len(),
            shared_len(a@, b@) == i + shared_len(a@.skip(i as int), b@.skip(i as int)),
        decreases a.len() - i,
    {
        assert(a@.skip(i as int).drop_first() =~= a@.skip(i + 1));
        assert(b@.skip(i as int).drop_first() =~= b@.skip(i + 1));
        i += 1;
    }
    if i < a.len() && i < b.len() {
        assert(a@.skip(i as int)[0] == a@[i as int]);
        assert(b@.skip(i as int)[0] == b@[i as int]);
    }
    i
}

/// Whether `a` sorts strictly before `b`.
pub fn chars_lt(a: &Vec<char>, b: &Vec<char>) -> (r: bool)
    ensures
        r == seq_lt(a@, b@),
{
    let mut i: usize = 0;
    assert(a@.skip(0) =~= a@);
    assert(b@.skip(0) =~= b@);
    while i < a.len() && i < b.len() && a[i] == b[i]
        invariant
            i <= a.len(),
            i <= b.len(),
            seq_lt(a@, b@) == seq_lt(a@.skip(i as int), b@.skip(i as int)),
        decreases a.len() - i,
    {
        assert(a@.skip(i as int).drop_first() =~= a@.skip(i + 1));
        assert(b@.skip(i as int).drop_first() =~= b@.skip(i + 1));
        i += 1;
    }
    if i == b.len() {
        false
    } else if i == a.len() {
        true
    } else {
        assert(a@.skip(i as int)[0] == a@[i as int]);
        assert(b@.skip(i as int)[0] == b@[i as int]);
        a[i] < b[i]
    }
}

/// The decimal spelling of `n`.
pub fn decimal_string(n: u64) -> (s: String)
    ensures
        s@ == decimal(n as nat),
    decreases n,
{
    if n < 10 {
        let mut s = String::new();
        push_char(&mut s, digit(n));
        s
    } else {
        let mut s = decimal_string(n / 10);
        push_char(&mut s, digit(n % 10));
        s
    }
}

/// The character of one decimal digit.
pub fn digit(d: u64) -> (c: char)
    requires
        d < 10,
    ensures
        c == digit_char(d as nat),
{
    ((d as u8) + 48) as char
}


/// How many characters stand before the first `c`: all of them when there
/// is none.
pub open spec fn count_before(s: Seq<char>, c: char) -> nat
    decreases s.len(),
{
    if s.len() == 0 || s[0] == c {
        0
    } else {
        1 + count_before(s.drop_first(), c)
    }
}

/// A line without the carriage return of a `\r\n` ending.
pub open spec fn strip_cr(l: Seq<char>) -> Seq<char> {
    if l.len() > 0 && l.last() == '\r' {
        l.drop_last()
    } else {
        l
    }
}

/// The lines of a text, as `str::lines` yields them: split at each `\n`,
/// a `\r` just before it going with it, and no empty line after a final
/// `\n`.
pub open spec fn lines_of(t: Seq<char>) -> Seq<Seq<char>>
    decreases t.len(),
{
    if t.len() == 0 {
        seq![]
    } else {
        let k = count_before(t, '\n');
        if k >= t.len() {
            seq![t]
        } else {
            seq![strip_cr(t.take(k as int))] + lines_of(t.skip(k as int + 1))
        }
    }
}

pub proof fn lemma_count_before_bound(s: Seq<char>, c: char)
    ensures
        count_before(s, c) <= s.len(),
        count_before(s, c) < s.len() ==> s[count_before(s, c) as int] == c,
        forall|i: int| 0 <= i < count_before(s, c) ==> s[i] != c,
    decreases s.len(),
{
    if s.len() > 0 && s[0] != c {
        lemma_count_before_bound(s.drop_first(), c);
        assert forall|i: int| 0 <= i < count_before(s, c) implies s[i] != c by {
            if i > 0 {
                assert(s[i] == s.drop_first()[i - 1]);
            }
        }
    }
}

/// The lines of `text`, each without its line ending.
pub fn lines(text: &Vec<char>) -> (r: Vec<Vec<char>>)
    ensures
        r@.map_values(|l: Vec<char>| l@) == lines_of(text@),
{
    let mut out: Vec<Vec<char>> = Vec::new();
    let mut pos: usize = 0;
    assert(text@.skip(0) =~= text@);
    while pos < text.len()
        invariant
            pos <= text.len(),
            out@.map_values(|l: Vec<char>| l@) + lines_of(text@.skip(pos as int)) == lines_of(text@),
        decreases text.len() - pos,
    {
        let ghost rest = text@.skip(pos as int);
        let mut e: usize = pos;
        while e < text.len() && text[e] != '\n'
            invariant
                pos <= e <= text.len(),
                rest == text@.skip(pos as int),
                count_before(rest, '\n') == (e - pos) + count_before(text@.skip(e as int), '\n'),
            decreases text.len() - e,
        {
            assert(text@.skip(e as int).drop_first() =~= text@.skip(e + 1));
            assert(text@.skip(e as int)[0] == text@[e as int]);
            e += 1;
        }
        let mut line: Vec<char> = Vec::new();
        let mut i: usize = pos;
        while i < e
            invariant
                pos <= i <= e <= text.len(),
                line@ == text@.subrange(pos as int, i as int),
            decreases e - i,
        {
            line.push(text[i]);
            i += 1;
        }
        assert(rest.take(e - pos) =~= text@.subrange(pos as int, e as int));
        if e < text.len() {
            assert(text@.skip(e as int)[0] == text@[e as int]);
            assert(count_before(rest, '\n') == e - pos);
            if line.len() > 0 && line[line.len() - 1] == '\r' {
                line.pop();
            }
            assert(rest.skip(e - pos + 1) =~= text@.skip(e + 1));
            let ghost before = out@.map_values(|l: Vec<char>| l@);
            out.push(line);
            assert(out@.map_values(|l: Vec<char>| l@) =~= before.push(strip_cr(rest.take(e - pos))));
            pos = e + 1;
        } else {
            assert(count_before(rest, '\n') == rest.len());
            assert(rest =~= text@.subrange(pos as int, e as int));
            let ghost before = out@.map_values(|l: Vec<char>| l@);
            out.push(line);
            assert(out@.map_values(|l: Vec<char>| l@) =~= before.push(rest));
            assert(text@.skip(e as int) =~= Seq::<char>::empty());
            pos = e;
        }
    }
    assert(text@.skip(pos as int) =~= Seq::<char>::empty());
    assert(out@.map_values(|l: Vec<char>| l@) + lines_of(Seq::<char>::empty()) =~= out@.map_values(|l: Vec<char>| l@));
    out
}


/// Where a prefix free of `c` stands before the rest, the first `c` is
/// found after it.
pub proof fn lemma_count_before_append(a: Seq<char>, b: Seq<char>, c: char)
    requires
        forall|i: int| 0 <= i < a.len() ==> a[i] != c,
    ensures
        count_before(a + b, c) == a.len() + count_before(b, c),
    decreases a.len(),
{
    if a.len() > 0 {
        assert((a + b).drop_first() =~= a.drop_first() + b);
        assert((a + b)[0] == a[0]);
        lemma_count_before_append(a.drop_first(), b, c);
    } else {
        assert(a + b =~= b);
    }
}

/// A line free of `\n`, its ending, and the rest: the line comes first.
pub proof fn lemma_lines_of_line(a: Seq<char>, rest: Seq<char>)
    requires
        forall|i: int| 0 <= i < a.len() ==> a[i] != '\n',
    ensures
        lines_of(a + seq!['\n'] + rest) == seq![strip_cr(a)] + lines_of(rest),
{
    let t = a + seq!['\n'] + rest;
    assert(t =~= a + (seq!['\n'] + rest));
    lemma_count_before_append(a, seq!['\n'] + rest, '\n');
    assert((seq!['\n'] + rest)[0] == '\n');
    assert(count_before(seq!['\n'] + rest, '\n') == 0);
    assert(t.take(a.len() as int) =~= a);
    assert(t.skip(a.len() as int + 1) =~= rest);
}

/// `{:?}` of a string: the text in double quotes with its escapes.
pub uninterp spec fn debug_quoted(s: Seq<char>) -> Seq<char>;

/// A string as `{:?}` writes it: `<str as Debug>::fmt`.
#[verifier::external_body]
pub(crate) fn quoted(s: &str) -> (r: String)
    ensures
        r@ == debug_quoted(s@),
{
    format!("{s:?}")
}

/// The position of the first `c` in `s`, or its length when there is none.
pub fn position_of(s: &Vec<char>, c: char) -> (r: usize)
    ensures
        r == count_before(s@, c),
{
    let mut i: usize = 0;
    assert(s@.skip(0) =~= s@);
    while i < s.len() && s[i] != c
        invariant
            i <= s.len(),
            count_before(s@, c) == i + count_before(s@.skip(i as int), c),
        decreases s.len() - i,
    {
        assert(s@.skip(i as int).drop_first() =~= s@.skip(i + 1));
        assert(s@.skip(i as int)[0] == s@[i as int]);
        i += 1;
    }
    if i < s.len() {
        assert(s@.skip(i as int)[0] == s@[i as int]);
    }
    i
}

/// The characters of `s` from `from` up to `to`.
pub fn slice_chars(s: &Vec<char>, from: usize, to: usize) -> (r: Vec<char>)
    requires
        from <= to <= s.len(),
    ensures
        r@ == s@.subrange(from as int, to as int),
{
    let mut r: Vec<char> = Vec::new();
    let mut i: usize = from;
    while i < to
        invariant
            from <= i <= to <= s.len(),
            r@ == s@.subrange(from as int, i as int),
        decreases to - i,
    {
        r.push(s[i]);
        i += 1;
    }
    r
}


/// Non-strict order: `a` sorts before `b` or is `b`.
pub open spec fn seq_le(a: Seq<char>, b: Seq<char>) -> bool {
    seq_lt(a, b) || a == b
}

/// The texts of a list of strings.
pub open spec fn string_views(s: Seq<String>) -> Seq<Seq<char>> {
    s.map_values(|v: String| v@)
}

/// Sorted, equal texts allowed side by side.
pub open spec fn strings_sorted(s: Seq<Seq<char>>) -> bool {
    forall|i: int, j: int| 0 <= i < j < s.len() ==> seq_le(s[i], s[j])
}

/// The list sorted by text, the same strings as many times each.
pub fn sort_strings(v: Vec<String>) -> (r: Vec<String>)
    ensures
        strings_sorted(string_views(r@)),
        string_views(r@).to_multiset() == string_views(v@).to_multiset(),
{
    let mut out: Vec<String> = Vec::new();
    let mut i: usize = 0;
    proof {
        assert(string_views(v@).take(0) =~= Seq::<Seq<char>>::empty());
        assert(string_views(out@) =~= Seq::<Seq<char>>::empty());
    }
    while i < v.len()
        invariant
            i <= v@.len(),
            strings_sorted(string_views(out@)),
            string_views(out@).to_multiset() == string_views(v@).take(i as int).to_multiset(),
        decreases v.len() - i,
    {
        let x = chars_of(v[i].as_str());
        let mut p: usize = 0;
        while p < out.len() && !chars_lt(&x, &chars_of(out[p].as_str()))
            invariant
                p <= out@.len(),
                forall|k: int| 0 <= k < p ==> seq_le(#[trigger] out@[k]@, x@),
            decreases out.len() - p,
        {
            proof {
                lemma_seq_lt_total(x@, out@[p as int]@);
            }
            p += 1;
        }
        let ghost before = string_views(out@);
        out.insert(p, v[i].clone());
        proof {
            assert(string_views(out@) =~= before.insert(p as int, x@));
            vstd::seq_lib::to_multiset_insert(before, p as int, x@);
            assert(string_views(v@).take(i + 1) =~= string_views(v@).take(i as int).push(x@));
            vstd::seq_lib::to_multiset_build(string_views(v@).take(i as int), x@);
            assert forall|a: int, b: int| 0 <= a < b < string_views(out@).len() implies seq_le(string_views(out@)[a], string_views(out@)[b]) by {
                let s = string_views(out@);
                if b < p {
                    assert(s[a] == before[a] && s[b] == before[b]);
                } else if b == p {
                    assert(s[a] == before[a]);
                } else if a < p {
                    assert(s[a] == before[a] && s[b] == before[b - 1]);
                    assert(seq_lt(x@, before[p as int]));
                    if b - 1 > p {
                        assert(seq_le(before[p as int], before[b - 1]));
                        lemma_seq_le_transitive(x@, before[p as int], before[b - 1]);
                    }
                    lemma_seq_le_transitive(before[a], x@, before[b - 1]);
                } else if a == p {
                    assert(s[b] == before[b - 1]);
                    assert(seq_lt(x@, before[p as int]));
                    if b - 1 > p {
                        assert(seq_le(before[p as int], before[b - 1]));
                        lemma_seq_le_transitive(x@, before[p as int], before[b - 1]);
                    }
                } else {
                    assert(s[a] == before[a - 1] && s[b] == before[b - 1]);
                }
            }
        }
        i += 1;
    }
    proof {
        assert(string_views(v@).take(v@.len() as int) =~= string_views(v@));
    }
    out
}

/// The non-strict order is transitive.
pub proof fn lemma_seq_le_transitive(a: Seq<char>, b: Seq<char>, c: Seq<char>)
    requires
        seq_le(a, b),
        seq_le(b, c),
    ensures
        seq_le(a, c),
{
    if seq_lt(a, b) && seq_lt(b, c) {
        lemma_seq_lt_transitive(a, b, c);
    }
}

/// A sorted list without repeats is strictly sorted.
pub proof fn lemma_sorted_distinct(s: Seq<Seq<char>>)
    requires
        strings_sorted(s),
        s.no_duplicates(),
    ensures
        forall|i: int, j: int| 0 <= i < j < s.len() ==> seq_lt(s[i], s[j]),
{
    assert forall|i: int, j: int| 0 <= i < j < s.len() implies seq_lt(s[i], s[j]) by {
        assert(seq_le(s[i], s[j]));
        assert(s[i] != s[j]);
    }
}

/// Distinct digits are distinct characters.
pub proof fn lemma_digit_char_injective(a: nat, b: nat)
    requires
        a < 10,
        b < 10,
        digit_char(a) == digit_char(b),
    ensures
        a == b,
{
    assert(((a + 48) as u8) as char == ((b + 48) as u8) as char);
    assert((((a + 48) as u8) as char) as u32 == (a + 48) as u8);
    assert((((b + 48) as u8) as char) as u32 == (b + 48) as u8);
}

/// A decimal spelling names one number.
pub proof fn lemma_decimal_injective(a: nat, b: nat)
    requires
        decimal(a) == decimal(b),
    ensures
        a == b,
    decreases a,
{
    if a < 10 && b < 10 {
        assert(decimal(a) == seq![digit_char(a)]);
        assert(decimal(b) == seq![digit_char(b)]);
        assert(seq![digit_char(a)][0] == digit_char(a));
        assert(seq![digit_char(b)][0] == digit_char(b));
        assert(digit_char(a) == digit_char(b));
        lemma_digit_char_injective(a, b);
    } else if a >= 10 && b >= 10 {
        lemma_decimal_len(a / 10);
        lemma_decimal_len(b / 10);
        assert(decimal(a) == decimal(a / 10).push(digit_char(a % 10)));
        assert(decimal(b) == decimal(b / 10).push(digit_char(b % 10)));
        assert(decimal(a).last() == digit_char(a % 10));
        assert(decimal(b).last() == digit_char(b % 10));
        assert(digit_char(a % 10) == digit_char(b % 10));
        lemma_digit_char_injective(a % 10, b % 10);
        assert(decimal(a).drop_last() =~= decimal(a / 10));
        assert(decimal(b).drop_last() =~= decimal(b / 10));
        lemma_decimal_injective(a / 10, b / 10);
    } else {
        lemma_decimal_len(a / 10);
        lemma_decimal_len(b / 10);
    }
}

/// A decimal spelling has at least one digit.
pub proof fn lemma_decimal_len(n: nat)
    ensures
        decimal(n).len() >= 1,
    decreases n,
{
    if n >= 10 {
        lemma_decimal_len(n / 10);
    }
}

/// The distinct texts of a list, sorted: a sort followed by a dedup.
pub fn sorted_unique(v: Vec<String>) -> (r: Vec<String>)
    ensures
        forall|i: int, j: int| 0 <= i < j < r@.len() ==> seq_lt(r@[i]@, r@[j]@),
        forall|n: Seq<char>| string_views(r@).contains(n) <==> string_views(v@).contains(n),
{
    let s = sort_strings(v);
    let mut out: Vec<String> = Vec::new();
    let mut i: usize = 0;
    while i < s.len()
        invariant
            i <= s@.len(),
            strings_sorted(string_views(s@)),
            forall|a: int, b: int| 0 <= a < b < out@.len() ==> seq_lt(out@[a]@, out@[b]@),
            i > 0 ==> out@.len() > 0 && out@.last()@ == s@[i - 1]@,
            i == 0 ==> out@.len() == 0,
            forall|n: Seq<char>| string_views(out@).contains(n) <==> string_views(s@).take(i as int).contains(n),
        decreases s.len() - i,
    {
        let ghost before = out@;
        let fresh = out.len() == 0 || !str_eq(out[out.len() - 1].as_str(), s[i].as_str());
        if fresh {
            out.push(s[i].clone());
        }
        proof {
            let sv = string_views(s@);
            let t0 = sv.take(i as int);
            let t1 = sv.take(i + 1);
            assert(sv[i as int] == s@[i as int]@);
            assert(t1 =~= t0.push(sv[i as int]));
            if i > 0 {
                assert(sv[i - 1] == s@[i - 1]@);
                assert(seq_le(sv[i - 1], sv[i as int]));
            }
            if fresh {
                assert(string_views(out@) =~= string_views(before).push(s@[i as int]@));
                assert forall|a: int, b: int| 0 <= a < b < out@.len() implies seq_lt(out@[a]@, out@[b]@) by {
                    if b == out@.len() - 1 && a < b {
                        if a < before.len() - 1 {
                            assert(seq_lt(before[a]@, before.last()@));
                        }
                        if i > 0 {
                            assert(seq_lt(before.last()@, s@[i as int]@));
                            if a < before.len() - 1 {
                                lemma_seq_lt_transitive(before[a]@, before.last()@, s@[i as int]@);
                            }
                        }
                    } else {
                        assert(out@[a] == before[a] && out@[b] == before[b]);
                    }
                }
                assert forall|n: Seq<char>| string_views(out@).contains(n) <==> t1.contains(n) by {
                    if string_views(out@).contains(n) {
                        let k = choose|k: int| 0 <= k < string_views(out@).len() && string_views(out@)[k] == n;
                        if k < before.len() {
                            assert(string_views(before)[k] == n);
                            assert(string_views(before).contains(n));
                            assert(t0.contains(n));
                            let q = choose|q: int| 0 <= q < t0.len() && t0[q] == n;
                            assert(t1[q] == n);
                        } else {
                            assert(t1[i as int] == n);
                        }
                    }
                    if t1.contains(n) {
                        let q = choose|q: int| 0 <= q < t1.len() && t1[q] == n;
                        if q < i {
                            assert(t0[q] == n);
                            assert(t0.contains(n));
                            assert(string_views(before).contains(n));
                            let k = choose|k: int| 0 <= k < string_views(before).len() && string_views(before)[k] == n;
                            assert(string_views(out@)[k] == n);
                        } else {
                            assert(string_views(out@)[before.len() as int] == n);
                        }
                    }
                }
            } else {
                assert(out@ == before);
                assert(s@[i as int]@ == before.last()@);
                assert forall|n: Seq<char>| string_views(out@).contains(n) <==> t1.contains(n) by {
                    if t1.contains(n) {
                        let q = choose|q: int| 0 <= q < t1.len() && t1[q] == n;
                        if q < i {
                            assert(t0[q] == n);
                            assert(t0.contains(n));
                        } else {
                            assert(string_views(out@)[before.len() - 1] == n);
                        }
                    }
                    if string_views(out@).contains(n) {
                        assert(t0.contains(n));
                        let q = choose|q: int| 0 <= q < t0.len() && t0[q] == n;
                        assert(t1[q] == n);
                    }
                }
            }
        }
        i += 1;
    }
    proof {
        assert(string_views(s@).take(s@.len() as int) =~= string_views(s@));
        string_views(s@).to_multiset_ensures();
        string_views(v@).to_multiset_ensures();
        assert forall|n: Seq<char>| string_views(s@).contains(n) <==> string_views(v@).contains(n) by {
            if string_views(s@).contains(n) {
                assert(string_views(s@).to_multiset().count(n) > 0);
            }
            if string_views(v@).contains(n) {
                assert(string_views(v@).to_multiset().count(n) > 0);
            }
        }
    }
    out
}

} // verus!
