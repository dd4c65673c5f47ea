//! Byte strings in the order `str`'s `Ord` keeps: lexicographic by byte,
//! a proper prefix first. The id index sorts its records this way and reads
//! a record's nearest neighbours as the ones sharing the most with it.

use vstd::prelude::*;
use vstd::seq_lib::{to_multiset_build, to_multiset_insert};

verus! {

/// Strict lexicographic order on bytes.
pub open spec fn bytes_lt(a: Seq<u8>, b: Seq<u8>) -> bool
    decreases a.len(),
{
    if b.len() == 0 {
        false
    } else if a.len() == 0 {
        true
    } else if a[0] != b[0] {
        a[0] < b[0]
    } else {
        bytes_lt(a.drop_first(), b.drop_first())
    }
}

/// How many leading bytes two strings share.
pub open spec fn shared(a: Seq<u8>, b: Seq<u8>) -> nat
    decreases a.len(),
{
    if a.len() == 0 || b.len() == 0 || a[0] != b[0] {
        0
    } else {
        1 + shared(a.drop_first(), b.drop_first())
    }
}

/// The shared prefix: what it covers agrees, and it stops at the first
/// difference or at the end of the shorter string.
pub proof fn lemma_shared(a: Seq<u8>, b: Seq<u8>)
    ensures
        shared(a, b) <= a.len(),
        shared(a, b) <= b.len(),
        shared(a, b) == shared(b, a),
        forall|i: int| 0 <= i < shared(a, b) ==> a[i] == b[i],
        shared(a, b) < a.len() && shared(a, b) < b.len() ==> a[shared(a, b) as int] != b[shared(a, b) as int],
    decreases a.len(),
{
    if a.len() > 0 && b.len() > 0 && a[0] == b[0] {
        lemma_shared(a.drop_first(), b.drop_first());
        assert forall|i: int| 0 <= i < shared(a, b) implies a[i] == b[i] by {
            if i > 0 {
                assert(a[i] == a.drop_first()[i - 1]);
                assert(b[i] == b.drop_first()[i - 1]);
            }
        }
    }
}

/// The order decided at the first difference: `a` sorts first exactly when
/// it ends there and `b` does not, or both go on and `a`'s byte is smaller.
pub proof fn lemma_lt_at_split(a: Seq<u8>, b: Seq<u8>)
    ensures
        bytes_lt(a, b) <==> ({
            let m = shared(a, b);
            (m == a.len() && m < b.len()) || (m < a.len() && m < b.len() && a[m as int] < b[m as int])
        }),
    decreases a.len(),
{
    lemma_shared(a, b);
    if a.len() > 0 && b.len() > 0 && a[0] == b[0] {
        lemma_lt_at_split(a.drop_first(), b.drop_first());
        let m = shared(a, b);
        if m < a.len() && m < b.len() {
            assert(a[m as int] == a.drop_first()[m - 1]);
            assert(b[m as int] == b.drop_first()[m - 1]);
        }
    }
}

/// Equal strings share their whole length, and strings that share it all
/// with the same length are equal.
pub proof fn lemma_shared_eq(a: Seq<u8>, b: Seq<u8>)
    ensures
        (shared(a, b) == a.len() && a.len() == b.len()) <==> a == b,
{
    lemma_shared(a, b);
    if a == b {
        lemma_shared_self(a);
    }
    if shared(a, b) == a.len() && a.len() == b.len() {
        assert(a =~= b);
    }
}

proof fn lemma_shared_self(a: Seq<u8>)
    ensures
        shared(a, a) == a.len(),
    decreases a.len(),
{
    if a.len() > 0 {
        lemma_shared_self(a.drop_first());
    }
}

/// Exactly one of `a < b`, `a == b`, `b < a`.
pub proof fn lemma_lt_total(a: Seq<u8>, b: Seq<u8>)
    ensures
        bytes_lt(a, b) || a == b || bytes_lt(b, a),
        !(bytes_lt(a, b) && bytes_lt(b, a)),
        bytes_lt(a, b) ==> a != b,
{
    lemma_lt_at_split(a, b);
    lemma_lt_at_split(b, a);
    lemma_shared(a, b);
    lemma_shared_eq(a, b);
}

/// The order is transitive.
pub proof fn lemma_lt_transitive(a: Seq<u8>, b: Seq<u8>, c: Seq<u8>)
    requires
        bytes_lt(a, b),
        bytes_lt(b, c),
    ensures
        bytes_lt(a, c),
    decreases a.len(),
{
    if a.len() > 0 && b.len() > 0 && c.len() > 0 && a[0] == b[0] && b[0] == c[0] {
        lemma_lt_transitive(a.drop_first(), b.drop_first(), c.drop_first());
    }
}

/// Between two strings, a third shares at least as much with the far end
/// as the near end does: for `x <= y <= z`, `y` shares with `z` at least
/// what `x` does, and with `x` at least what `z` does.
pub proof fn lemma_between_shares_more(x: Seq<u8>, y: Seq<u8>, z: Seq<u8>)
    requires
        bytes_lt(x, y) || x == y,
        bytes_lt(y, z) || y == z,
    ensures
        shared(x, z) <= shared(y, z),
        shared(x, z) <= shared(x, y),
{
    lemma_shared(x, z);
    lemma_shared(y, z);
    lemma_shared(x, y);
    lemma_lt_at_split(x, y);
    lemma_lt_at_split(y, z);
    lemma_shared_eq(x, y);
    lemma_shared_eq(y, z);
    let k = shared(x, z);
    if shared(y, z) < k {
        let m = shared(y, z);
        assert forall|i: int| 0 <= i < m implies x[i] == y[i] by {
            assert(x[i] == z[i]);
        }
        if x != y && y != z {
            assert(shared(x, y) >= m) by {
                lemma_shared_at_least(x, y, m as int);
            }
            if m == y.len() {
                // y is a prefix of x and shorter: y < x, against x <= y.
                assert(shared(x, y) == m);
            } else {
                assert(y[m as int] != z[m as int]);
                assert(x[m as int] == z[m as int]);
                assert(shared(x, y) == m);
            }
        }
    }
    if shared(x, y) < k {
        let m = shared(x, y);
        assert forall|i: int| 0 <= i < m implies y[i] == z[i] by {
            assert(x[i] == z[i]);
        }
        if x != y && y != z {
            assert(shared(y, z) >= m) by {
                lemma_shared_at_least(y, z, m as int);
            }
            if m == x.len() {
                assert(shared(x, z) <= x.len());
            } else if m == y.len() {
                assert(shared(y, z) == m);
            } else {
                assert(x[m as int] != y[m as int]);
                assert(x[m as int] == z[m as int]);
                assert(shared(y, z) == m);
            }
        }
    }
}

/// Strings agreeing on their first `m` bytes share at least `m`.
pub proof fn lemma_shared_at_least(a: Seq<u8>, b: Seq<u8>, m: int)
    requires
        0 <= m <= a.len(),
        m <= b.len(),
        forall|i: int| 0 <= i < m ==> a[i] == b[i],
    ensures
        shared(a, b) >= m,
    decreases a.len(),
{
    if m > 0 {
        assert(a[0] == b[0]);
        assert forall|i: int| 0 <= i < m - 1 implies a.drop_first()[i] == b.drop_first()[i] by {
            assert(a[i + 1] == b[i + 1]);
        }
        lemma_shared_at_least(a.drop_first(), b.drop_first(), m - 1);
    }
}

/// Whether `a` sorts strictly before `b`.
pub fn lt(a: &Vec<u8>, b: &Vec<u8>) -> (r: bool)
    ensures
        r == bytes_lt(a@, b@),
{
    let mut i: usize = 0;
    assert(a@.skip(0) =~= a@);
    assert(b@.skip(0) =~= b@);
    while i < a.len() && i < b.len() && a[i] == b[i]
        invariant
            i <= a.len(),
            i <= b.len(),
            bytes_lt(a@, b@) == bytes_lt(a@.skip(i as int), b@.skip(i as int)),
        decreases a.len() - i,
    {
        assert(a@.skip(i as int).drop_first() =~= a@.skip(i + 1));
        assert(b@.skip(i as int).drop_first() =~= b@.skip(i + 1));
        i += 1;
    }
    if i == b.len() {
        false
    } else if i == a.len() {
        true
    } else {
        assert(a@.skip(i as int)[0] == a@[i as int]);
        assert(b@.skip(i as int)[0] == b@[i as int]);
        a[i] < b[i]
    }
}

/// How many leading bytes `a` and `b` share.
pub fn shared_len(a: &Vec<u8>, b: &Vec<u8>) -> (n: usize)
    ensures
        n == shared(a@, b@),
{
    let mut i: usize = 0;
    assert(a@.skip(0) =~= a@);
    assert(b@.skip(0) =~= b@);
    while i < a.len() && i < b.len() && a[i] == b[i]
        invariant
            i <= a.len(),
            i <= b.len(),
            shared(a@, b@) == i + shared(a@.skip(i as int), b@.skip(i as int)),
        decreases a.len() - i,
    {
        assert(a@.skip(i as int).drop_first() =~= a@.skip(i + 1));
        assert(b@.skip(i as int).drop_first() =~= b@.skip(i + 1));
        i += 1;
    }
    if i < a.len() && i < b.len() {
        assert(a@.skip(i as int)[0] == a@[i as int]);
        assert(b@.skip(i as int)[0] == b@[i as int]);
    }
    i
}

/// Whether two byte strings are equal.
pub fn eq(a: &Vec<u8>, b: &Vec<u8>) -> (r: bool)
    ensures
        r == (a@ == b@),
{
    if a.len() != b.len() {
        return false;
    }
    let mut i: usize = 0;
    while i < a.len()
        invariant
            a.len() == b.len(),
            i <= a.len(),
            forall|k: int| 0 <= k < i ==> a@[k] == b@[k],
        decreases a.len() - i,
    {
        if a[i] != b[i] {
            return false;
        }
        i += 1;
    }
    assert(a@ =~= b@);
    true
}

/// Whether `p` is a prefix of `s`.
pub fn starts_with(s: &Vec<u8>, p: &Vec<u8>) -> (r: bool)
    ensures
        r == p@.is_prefix_of(s@),
{
    if p.len() > s.len() {
        return false;
    }
    let mut i: usize = 0;
    while i < p.len()
        invariant
            p.len() <= s.len(),
            i <= p.len(),
            forall|k: int| 0 <= k < i ==> p@[k] == s@[k],
        decreases p.len() - i,
    {
        if p[i] != s[i] {
            return false;
        }
        i += 1;
    }
    assert(p@ =~= s@.subrange(0, p@.len() as int));
    true
}


/// Non-strict order: `a` sorts before `b` or is `b`.
pub open spec fn bytes_le(a: Seq<u8>, b: Seq<u8>) -> bool {
    bytes_lt(a, b) || a == b
}

/// The byte strings a list holds.
pub open spec fn views(s: Seq<Vec<u8>>) -> Seq<Seq<u8>> {
    s.map_values(|v: Vec<u8>| v@)
}

/// Sorted, equal strings allowed side by side.
pub open spec fn sorted(s: Seq<Seq<u8>>) -> bool {
    forall|i: int, j: int| 0 <= i < j < s.len() ==> bytes_le(s[i], s[j])
}

/// The non-strict order is transitive.
pub proof fn lemma_le_transitive(a: Seq<u8>, b: Seq<u8>, c: Seq<u8>)
    requires
        bytes_le(a, b),
        bytes_le(b, c),
    ensures
        bytes_le(a, c),
{
    if bytes_lt(a, b) && bytes_lt(b, c) {
        lemma_lt_transitive(a, b, c);
    }
}

/// The list sorted, the same strings as many times each.
pub fn sort(v: Vec<Vec<u8>>) -> (r: Vec<Vec<u8>>)
    ensures
        sorted(views(r@)),
        views(r@).to_multiset() == views(v@).to_multiset(),
{
    let mut out: Vec<Vec<u8>> = Vec::new();
    let mut i: usize = 0;
    proof {
        assert(views(v@).take(0) =~= Seq::<Seq<u8>>::empty());
        assert(views(out@) =~= Seq::<Seq<u8>>::empty());
    }
    while i < v.len()
        invariant
            i <= v@.len(),
            sorted(views(out@)),
            views(out@).to_multiset() == views(v@).take(i as int).to_multiset(),
        decreases v.len() - i,
    {
        let x = &v[i];
        let mut p: usize = 0;
        while p < out.len() && !lt(x, &out[p])
            invariant
                p <= out@.len(),
                forall|k: int| 0 <= k < p ==> bytes_le(#[trigger] out@[k]@, x@),
            decreases out.len() - p,
        {
            proof {
                lemma_lt_total(x@, out@[p as int]@);
            }
            p += 1;
        }
        let ghost before = views(out@);
        out.insert(p, x.clone());
        proof {
            assert(views(out@) =~= before.insert(p as int, x@));
            to_multiset_insert(before, p as int, x@);
            assert(views(v@).take(i + 1) =~= views(v@).take(i as int).push(x@));
            to_multiset_build(views(v@).take(i as int), x@);
            assert forall|a: int, b: int| 0 <= a < b < views(out@).len() implies bytes_le(views(out@)[a], views(out@)[b]) by {
                let s = views(out@);
                if b < p {
                    assert(s[a] == before[a] && s[b] == before[b]);
                } else if b == p {
                    assert(s[a] == before[a]);
                } else if a < p {
                    assert(s[a] == before[a] && s[b] == before[b - 1]);
                    assert(bytes_lt(x@, before[p as int]));
                    if b - 1 > p {
                        assert(bytes_le(before[p as int], before[b - 1]));
                        lemma_le_transitive(x@, before[p as int], before[b - 1]);
                    }
                    lemma_le_transitive(before[a], x@, before[b - 1]);
                } else if a == p {
                    assert(s[b] == before[b - 1]);
                    assert(bytes_lt(x@, before[p as int]));
                    if b - 1 > p {
                        assert(bytes_le(before[p as int], before[b - 1]));
                        lemma_le_transitive(x@, before[p as int], before[b - 1]);
                    }
                } else {
                    assert(s[a] == before[a - 1] && s[b] == before[b - 1]);
                }
            }
        }
        i += 1;
    }
    proof {
        assert(views(v@).take(v@.len() as int) =~= views(v@));
    }
    out
}

/// The bytes of `s` from `from` up to `to`.
pub fn slice(s: &Vec<u8>, from: usize, to: usize) -> (r: Vec<u8>)
    requires
        from <= to <= s.len(),
    ensures
        r@ == s@.subrange(from as int, to as int),
{
    let mut r: Vec<u8> = Vec::new();
    let mut i: usize = from;
    while i < to
        invariant
            from <= i <= to <= s.len(),
            r@ == s@.subrange(from as int, i as int),
        decreases to - i,
    {
        r.push(s[i]);
        i += 1;
    }
    r
}

/// A string that starts with `p` does not sort before `p`; and when `s`
/// does not sort before `p` yet does not start with it, every string that
/// starts with `p` sorts before `s`.
pub proof fn lemma_prefix_order(p: Seq<u8>, s: Seq<u8>, t: Seq<u8>)
    requires
        p.is_prefix_of(t),
    ensures
        !bytes_lt(t, p),
        !bytes_lt(s, p) && !p.is_prefix_of(s) ==> bytes_lt(t, s),
{
    lemma_shared(t, p);
    lemma_lt_at_split(t, p);
    lemma_shared_at_least(t, p, p.len() as int);
    if !bytes_lt(s, p) && !p.is_prefix_of(s) {
        lemma_shared(p, s);
        lemma_lt_at_split(s, p);
        lemma_shared(s, p);
        let m = shared(p, s);
        if m == p.len() {
            assert(p =~= s.subrange(0, p.len() as int));
        }
        assert(m < p.len());
        assert(m < s.len());
        assert(p[m as int] != s[m as int]);
        assert(s[m as int] > p[m as int]);
        assert forall|i: int| 0 <= i < m implies t[i] == s[i] by {
            assert(t[i] == p[i]);
        }
        lemma_shared_at_least(t, s, m as int);
        lemma_shared(t, s);
        assert(t[m as int] == p[m as int]);
        assert(shared(t, s) == m);
        lemma_lt_at_split(t, s);
    }
}

/// An id's twenty bytes as a vector.
pub fn slice_array(a: &[u8; 20]) -> (r: Vec<u8>)
    ensures
        r@ == a@,
{
    let mut r: Vec<u8> = Vec::new();
    let mut i: usize = 0;
    while i < 20
        invariant
            i <= 20,
            a@.len() == 20,
            r@ == a@.take(i as int),
        decreases 20 - i,
    {
        r.push(a[i]);
        i += 1;
        assert(r@ =~= a@.take(i as int));
    }
    assert(a@.take(20) =~= a@);
    r
}
} // verus!
