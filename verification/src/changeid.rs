//! The change id: the identity a commit keeps through rewrites, jj's model.
//!
//! Sixteen random bytes, minted when a change first gets a description or a
//! capture and written into the commit as a `change-id` header spelled in the
//! letters alphabet, which is exactly the header jj writes and reads. A
//! commit without the header gets a derived id, jj's derivation, so every
//! clone agrees on it without a walk.

use vstd::prelude::*;
use crate::error::{Error, Result};
use crate::hex::{hex_of, hex_val, nibbles};
use crate::oid::Oid;
use crate::snapid::{all_letters, decode_spec, letter_of, letter_val};
use crate::text::{seq_lt, shared_len, trimmed};

verus! {

/// Bytes in a change id.
pub const LEN: usize = 16;

/// Letters in a spelled change id.
pub const LETTERS: usize = 32;

/// The commit header carrying the id.
pub const HEADER: &'static str = "change-id";

#[derive(Clone, Copy, PartialEq, Eq, Hash, Debug)]
pub struct ChangeId(pub(crate) [u8; 16]);

impl View for ChangeId {
    type V = Seq<u8>;

    closed spec fn view(&self) -> Seq<u8> {
        self.0@
    }
}

/// The letters spelling of an id's bytes: one letter a nibble, high nibble
/// first.
pub open spec fn letters_spec(b: Seq<u8>) -> Seq<char> {
    nibbles(b).map_values(|v: int| letter_of(v))
}

/// The bytes a thirty-two letter spelling names.
pub open spec fn parse_spec(s: Seq<char>) -> Seq<u8> {
    Seq::new(16, |i: int| (letter_val(s[2 * i]) * 16 + letter_val(s[2 * i + 1])) as u8)
}

/// Whether `s` spells a change id: exactly thirty-two letters, either case.
pub open spec fn spells_id(s: Seq<char>) -> bool {
    s.len() == 32 && all_letters(s)
}

/// Whether a letters token is a prefix of the id with these bytes.
pub open spec fn has_prefix_spec(b: Seq<u8>, token: Seq<char>) -> bool {
    decode_spec(token) is Some && decode_spec(token)->0.is_prefix_of(hex_of(b))
}

/// One byte's bits in reverse order.
pub open spec fn rev_bits(b: u8) -> u8 {
    ((b & 1) << 7u8) | ((b & 2) << 5u8) | ((b & 4) << 3u8) | ((b & 8) << 1u8) | ((b & 16) >> 1u8)
        | ((b & 32) >> 3u8) | ((b & 64) >> 5u8) | ((b & 128) >> 7u8)
}

/// jj's id for a commit with no header: the sha's bytes in reverse order,
/// each byte's bits reversed, the first sixteen kept.
pub open spec fn derived_spec(sha: Seq<u8>) -> Seq<u8> {
    Seq::new(16, |i: int| rev_bits(sha[19 - i]))
}

/// Spelling an id in letters and parsing the spelling gives the id back;
/// the spelling is thirty-two letters.
pub proof fn lemma_parse_letters(b: Seq<u8>)
    requires
        b.len() == 16,
    ensures
        letters_spec(b).len() == 32,
        spells_id(letters_spec(b)),
        parse_spec(letters_spec(b)) == b,
{
    let l = letters_spec(b);
    assert forall|i: int| 0 <= i < l.len() implies letter_val(#[trigger] l[i]) >= 0 by {
        assert(0 <= nibbles(b)[i] < 16);
    }
    assert forall|i: int| 0 <= i < 16 implies #[trigger] parse_spec(l)[i] == b[i] by {
        assert((2 * i) / 2 == i);
        assert((2 * i + 1) / 2 == i);
        assert((2 * i) % 2 == 0);
        assert((2 * i + 1) % 2 == 1);
        assert(letter_val(l[2 * i]) == b[i] / 16);
        assert(letter_val(l[2 * i + 1]) == b[i] % 16);
    }
    assert(parse_spec(l) =~= b);
}

/// Every prefix of an id's letters, in either case, is a prefix of the id.
pub proof fn lemma_own_prefix(b: Seq<u8>, k: int)
    requires
        b.len() == 16,
        0 <= k <= 32,
    ensures
        has_prefix_spec(b, letters_spec(b).subrange(0, k)),
{
    let t = letters_spec(b).subrange(0, k);
    lemma_parse_letters(b);
    assert(all_letters(t));
    let d = decode_spec(t)->0;
    assert forall|i: int| 0 <= i < k implies #[trigger] d[i] == hex_of(b)[i] by {
        assert(0 <= nibbles(b)[i] < 16);
    }
    assert(hex_of(b).subrange(0, k) =~= d);
}

/// `s` with its ASCII lowercase letters made uppercase.
pub open spec fn ascii_upper(s: Seq<char>) -> Seq<char> {
    s.map_values(|c: char| if 'a' <= c && c <= 'z' { ((c as int) - 32) as char } else { c })
}

/// The uppercase spelling of an id's letters reads back as the id too, and
/// each of its prefixes is a prefix of the id.
pub proof fn lemma_upper_letters(b: Seq<u8>, k: int)
    requires
        b.len() == 16,
        0 <= k <= 32,
    ensures
        spells_id(ascii_upper(letters_spec(b))),
        parse_spec(ascii_upper(letters_spec(b))) == b,
        has_prefix_spec(b, ascii_upper(letters_spec(b)).subrange(0, k)),
{
    let l = letters_spec(b);
    let u = ascii_upper(l);
    lemma_parse_letters(b);
    assert forall|i: int| 0 <= i < u.len() implies letter_val(#[trigger] u[i]) == letter_val(l[i]) && letter_val(u[i]) == nibbles(b)[i] by {
        assert(0 <= nibbles(b)[i] < 16);
        assert(l[i] == letter_of(nibbles(b)[i]));
    }
    assert forall|i: int| 0 <= i < 16 implies #[trigger] parse_spec(u)[i] == parse_spec(l)[i] by {
        assert(letter_val(u[2 * i]) == letter_val(l[2 * i]));
        assert(letter_val(u[2 * i + 1]) == letter_val(l[2 * i + 1]));
    }
    assert(parse_spec(u) =~= parse_spec(l));
    let t = u.subrange(0, k);
    assert(all_letters(t));
    let d = decode_spec(t)->0;
    assert forall|i: int| 0 <= i < k implies #[trigger] d[i] == hex_of(b)[i] by {
        assert(letter_val(u[i]) == nibbles(b)[i]);
    }
    assert(hex_of(b).subrange(0, k) =~= d);
}

/// `s` with its ASCII uppercase letters made lowercase.
pub open spec fn ascii_lower(s: Seq<char>) -> Seq<char> {
    s.map_values(|c: char| if 'A' <= c && c <= 'Z' { ((c as int) + 32) as char } else { c })
}

/// Case does not matter to a prefix, as far as ASCII goes: a token and its
/// lowercase spelling are prefixes of the same ids.
pub proof fn lemma_prefix_ignores_case(b: Seq<u8>, t: Seq<char>)
    ensures
        has_prefix_spec(b, t) == has_prefix_spec(b, ascii_lower(t)),
{
    let l = ascii_lower(t);
    assert forall|i: int| 0 <= i < t.len() implies letter_val(#[trigger] l[i]) == letter_val(t[i]) by {}
    if all_letters(t) {
        assert(all_letters(l));
        assert(decode_spec(t)->0 =~= decode_spec(l)->0);
    } else {
        let i = choose|i: int| 0 <= i < t.len() && !(letter_val(t[i]) >= 0);
        assert(letter_val(l[i]) == letter_val(t[i]));
        assert(!all_letters(l));
    }
}

/// Bit reversal undone is the byte it started from.
pub proof fn lemma_rev_bits_involutive(b: u8)
    ensures
        rev_bits(rev_bits(b)) == b,
{
    assert(rev_bits(rev_bits(b)) == b) by (bit_vector);
}

/// Sixteen bytes from the system's entropy: `getrandom::fill`. The bytes
/// are whatever the system handed out; nothing is said of them.
#[verifier::external_body]
fn random_bytes() -> (r: core::result::Result<[u8; 16], String>) {
    let mut bytes = [0u8; 16];
    match getrandom::fill(&mut bytes) {
        Ok(()) => Ok(bytes),
        Err(err) => Err(err.to_string()),
    }
}

/// One byte's bits in reverse order.
pub fn reverse_bits(b: u8) -> (r: u8)
    ensures
        r == rev_bits(b),
{
    ((b & 1) << 7u8) | ((b & 2) << 5u8) | ((b & 4) << 3u8) | ((b & 8) << 1u8) | ((b & 16) >> 1u8)
        | ((b & 32) >> 3u8) | ((b & 64) >> 5u8) | ((b & 128) >> 7u8)
}

impl ChangeId {
    /// An id's bytes are sixteen.
    pub proof fn lemma_len(&self)
        ensures
            self@.len() == 16,
    {
    }

    /// A fresh id from the system's entropy. Fails only when the system
    /// has none to give, with the system's words after
    /// `could not mint a change id: `.
    pub fn mint() -> (r: Result<ChangeId>)
        ensures
            r matches Err(e) ==> (e matches Error::Repo(m) && "could not mint a change id: "@.is_prefix_of(m@)),
    {
        match random_bytes() {
            Ok(bytes) => Ok(ChangeId(bytes)),
            Err(err) => Err(
                Error::Repo(crate::text::concat("could not mint a change id: ", err.as_str())),
            ),
        }
    }

    /// The id of a commit that carries no header: the sha's bytes reversed
    /// in order, each byte's bits reversed, the first sixteen kept.
    pub fn derive(sha: &Oid) -> (id: ChangeId)
        ensures
            id@ == derived_spec(sha@),
    {
        let mut bytes = [0u8; 16];
        let mut i: usize = 0;
        while i < 16
            invariant
                i <= 16,
                sha@.len() == 20,
                forall|k: int| 0 <= k < i ==> bytes@[k] == rev_bits(sha@[19 - k]),
            decreases 16 - i,
        {
            bytes[i] = reverse_bits(sha.0[19 - i]);
            i += 1;
        }
        assert(bytes@ =~= derived_spec(sha@));
        ChangeId(bytes)
    }

    /// Exactly thirty-two alphabet letters, case-insensitive.
    pub fn parse(letters: &str) -> (r: Option<ChangeId>)
        ensures
            r is Some <==> spells_id(letters@),
            r matches Some(id) ==> id@ == parse_spec(letters@),
    {
        if letters.unicode_len() != LETTERS {
            return None;
        }
        let hex = match crate::snapid::decode(letters) {
            Some(h) => h,
            None => {
                return None;
            },
        };
        let h = crate::text::chars_of(hex.as_str());
        proof {
            assert forall|i: int| 0 <= i < h@.len() implies hex_val(#[trigger] h@[i])
                == letter_val(letters@[i]) by {
                assert(0 <= letter_val(letters@[i]) < 16);
            }
        }
        match crate::hex::from_hex_chars(&h) {
            Some(b) => {
                let mut a = [0u8; 16];
                let mut i: usize = 0;
                while i < 16
                    invariant
                        b@.len() == 16,
                        i <= 16,
                        forall|k: int| 0 <= k < i ==> a@[k] == b@[k],
                    decreases 16 - i,
                {
                    a[i] = b[i];
                    i += 1;
                }
                assert(a@ =~= parse_spec(letters@)) by {
                    assert forall|k: int| 0 <= k < 16 implies #[trigger] a@[k] == parse_spec(
                        letters@,
                    )[k] by {
                        assert(h@[2 * k] == h@[2 * k]);
                    }
                }
                Some(ChangeId(a))
            },
            None => {
                proof {
                    assert forall|i: int| 0 <= i < h@.len() implies hex_val(#[trigger] h@[i])
                        >= 0 by {
                        assert(0 <= letter_val(letters@[i]) < 16);
                    }
                }
                None
            },
        }
    }

    /// Thirty-two lowercase hex digits.
    pub fn hex(&self) -> (s: String)
        ensures
            s@ == hex_of(self@),
    {
        crate::hex::to_hex(self.0.as_slice())
    }

    /// The letters spelling, the header's and the column's.
    pub fn letters(&self) -> (s: String)
        ensures
            s@ == letters_spec(self@),
    {
        let mut v: Vec<char> = Vec::new();
        let mut i: usize = 0;
        while i < 16
            invariant
                i <= 16,
                self@.len() == 16,
                v@ == letters_spec(self@.subrange(0, i as int)),
            decreases 16 - i,
        {
            let x = self.0[i];
            v.push(crate::snapid::letter(x / 16));
            v.push(crate::snapid::letter(x % 16));
            i += 1;
            assert(v@ =~= letters_spec(self@.subrange(0, i as int)));
        }
        assert(self@.subrange(0, 16) =~= self@);
        crate::text::string_of(&v)
    }

    /// Whether a letters token (case-insensitive) is a prefix of this id.
    pub fn has_prefix(&self, letters: &str) -> (r: bool)
        ensures
            r == has_prefix_spec(self@, letters@),
    {
        match crate::snapid::decode(letters) {
            None => false,
            Some(hex) => {
                let own = self.hex();
                crate::text::str_starts_with(own.as_str(), hex.as_str())
            },
        }
    }
}

/// The page-local length of one id against the ids `ids[..n]`: one more
/// than the longest prefix it shares with any other id there, at least one
/// and at most thirty-two.
pub open spec fn page_len_upto(ids: Seq<Seq<char>>, id: Seq<char>, n: int) -> int
    decreases n,
{
    if n <= 0 {
        1
    } else {
        let prev = page_len_upto(ids, id, n - 1);
        let other = ids[n - 1];
        if other == id {
            prev
        } else {
            let cand: int = if shared_len(id, other) + 1int < 32 {
                shared_len(id, other) + 1int
            } else {
                32
            };
            if cand > prev {
                cand
            } else {
                prev
            }
        }
    }
}

/// The shortest prefix that tells `id` apart from every other id on the
/// page, clamped to the id's own length (and never below one).
pub open spec fn page_len(ids: Seq<Seq<char>>, id: Seq<char>) -> int {
    let l = page_len_upto(ids, id, ids.len() as int);
    let cap = if id.len() > 1 {
        id.len() as int
    } else {
        1
    };
    if l < cap {
        l
    } else {
        cap
    }
}

pub proof fn lemma_page_len_upto_range(ids: Seq<Seq<char>>, id: Seq<char>, n: int)
    ensures
        1 <= page_len_upto(ids, id, n) <= 32,
    decreases n,
{
    if n > 0 {
        lemma_page_len_upto_range(ids, id, n - 1);
    }
}

/// How far apart `id` and another id must be read: one past what they
/// share, at most thirty-two.
pub open spec fn apart(id: Seq<char>, other: Seq<char>) -> int {
    if shared_len(id, other) + 1int < 32 { shared_len(id, other) + 1int } else { 32 }
}

/// The running length is the largest `apart` over the other ids so far, or
/// one when there is none.
proof fn lemma_page_len_upto_max(ids: Seq<Seq<char>>, id: Seq<char>, n: int)
    requires
        0 <= n <= ids.len(),
    ensures
        forall|j: int| 0 <= j < n && ids[j] != id ==> apart(id, #[trigger] ids[j]) <= page_len_upto(ids, id, n),
        page_len_upto(ids, id, n) == 1 || exists|j: int| 0 <= j < n && ids[j] != id
            && page_len_upto(ids, id, n) == apart(id, #[trigger] ids[j]),
        1 <= page_len_upto(ids, id, n),
    decreases n,
{
    if n > 0 {
        lemma_page_len_upto_max(ids, id, n - 1);
        if page_len_upto(ids, id, n) != page_len_upto(ids, id, n - 1) {
            assert(ids[n - 1] != id && page_len_upto(ids, id, n) == apart(id, ids[n - 1]));
        } else if page_len_upto(ids, id, n - 1) != 1 {
            let j = choose|j: int| 0 <= j < n - 1 && ids[j] != id && page_len_upto(ids, id, n - 1) == apart(id, #[trigger] ids[j]);
            assert(0 <= j < n && ids[j] != id && page_len_upto(ids, id, n) == apart(id, ids[j]));
        }
    }
}

/// A page's lengths do not depend on the order of its ids, nor on how often
/// each stands on it: two pages holding the same ids price each id alike.
pub proof fn lemma_page_len_order_free(ids1: Seq<Seq<char>>, ids2: Seq<Seq<char>>, id: Seq<char>)
    requires
        forall|x: Seq<char>| ids1.contains(x) <==> ids2.contains(x),
    ensures
        page_len(ids1, id) == page_len(ids2, id),
{
    let n1 = ids1.len() as int;
    let n2 = ids2.len() as int;
    lemma_page_len_upto_max(ids1, id, n1);
    lemma_page_len_upto_max(ids2, id, n2);
    let l1 = page_len_upto(ids1, id, n1);
    let l2 = page_len_upto(ids2, id, n2);
    if l1 != 1 {
        let j = choose|j: int| 0 <= j < n1 && ids1[j] != id && l1 == apart(id, #[trigger] ids1[j]);
        assert(ids1.contains(ids1[j]));
        let k = choose|k: int| 0 <= k < n2 && ids2[k] == ids1[j];
        assert(apart(id, ids2[k]) <= l2);
    }
    if l2 != 1 {
        let j = choose|j: int| 0 <= j < n2 && ids2[j] != id && l2 == apart(id, #[trigger] ids2[j]);
        assert(ids2.contains(ids2[j]));
        let k = choose|k: int| 0 <= k < n1 && ids1[k] == ids2[j];
        assert(apart(id, ids1[k]) <= l1);
    }
    assert(l1 == l2);
}

/// Two pricings of pages that hold the same ids, in any order and as often
/// as may be, are the same map: the same keys, each with the same length.
pub proof fn lemma_prefix_lens_order_free(
    r1: Seq<(String, usize)>,
    ids1: Seq<Seq<char>>,
    r2: Seq<(String, usize)>,
    ids2: Seq<Seq<char>>,
)
    requires
        forall|x: Seq<char>| ids1.contains(x) <==> ids2.contains(x),
        forall|i: int| 0 <= i < r1.len() ==> ids1.contains(#[trigger] keys_of(r1)[i]),
        forall|j: int| 0 <= j < ids1.len() ==> keys_of(r1).contains(#[trigger] ids1[j]),
        forall|i: int| 0 <= i < r1.len() ==> (#[trigger] r1[i]).1 == page_len(ids1, r1[i].0@),
        forall|i: int| 0 <= i < r2.len() ==> ids2.contains(#[trigger] keys_of(r2)[i]),
        forall|j: int| 0 <= j < ids2.len() ==> keys_of(r2).contains(#[trigger] ids2[j]),
        forall|i: int| 0 <= i < r2.len() ==> (#[trigger] r2[i]).1 == page_len(ids2, r2[i].0@),
    ensures
        forall|k: Seq<char>| keys_of(r1).contains(k) <==> keys_of(r2).contains(k),
        forall|i: int, j: int| 0 <= i < r1.len() && 0 <= j < r2.len() && r1[i].0@ == r2[j].0@ ==> #[trigger] r1[i].1
            == #[trigger] r2[j].1,
{
    assert forall|k: Seq<char>| keys_of(r1).contains(k) <==> keys_of(r2).contains(k) by {
        if keys_of(r1).contains(k) {
            let i = choose|i: int| 0 <= i < keys_of(r1).len() && keys_of(r1)[i] == k;
            assert(ids1.contains(keys_of(r1)[i]));
            assert(ids2.contains(k));
            let j = choose|j: int| 0 <= j < ids2.len() && ids2[j] == k;
            assert(keys_of(r2).contains(ids2[j]));
        }
        if keys_of(r2).contains(k) {
            let i = choose|i: int| 0 <= i < keys_of(r2).len() && keys_of(r2)[i] == k;
            assert(ids2.contains(keys_of(r2)[i]));
            assert(ids1.contains(k));
            let j = choose|j: int| 0 <= j < ids1.len() && ids1[j] == k;
            assert(keys_of(r1).contains(ids1[j]));
        }
    }
    assert forall|i: int, j: int| 0 <= i < r1.len() && 0 <= j < r2.len() && r1[i].0@ == r2[j].0@ implies #[trigger] r1[i].1
        == #[trigger] r2[j].1 by {
        lemma_page_len_order_free(ids1, ids2, r1[i].0@);
    }
}

/// The views of a list of string slices.
pub open spec fn views_str(v: Seq<&str>) -> Seq<Seq<char>> {
    v.map_values(|s: &str| s@)
}

/// The keys of a priced page, as character sequences.
pub open spec fn keys_of(r: Seq<(String, usize)>) -> Seq<Seq<char>> {
    r.map_values(|e: (String, usize)| e.0@)
}

/// The views of a list of character vectors.
pub open spec fn views_of(v: Seq<Vec<char>>) -> Seq<Seq<char>> {
    v.map_values(|c: Vec<char>| c@)
}

/// `page_len` of `id` over `page`.
fn page_length(page: &Vec<Vec<char>>, id: &Vec<char>) -> (n: usize)
    ensures
        n == page_len(views_of(page@), id@),
{
    let ghost views = views_of(page@);
    let mut len: usize = 1;
    let mut m: usize = 0;
    while m < page.len()
        invariant
            m <= page.len(),
            views == views_of(page@),
            len == page_len_upto(views, id@, m as int),
            1 <= len <= 32,
        decreases page.len() - m,
    {
        let other = &page[m];
        assert(views[m as int] == other@);
        if !crate::text::chars_eq(other, id) {
            let shared = crate::text::common_prefix_chars(id, other);
            let cand: usize = if shared < 31 {
                shared + 1
            } else {
                32
            };
            if cand > len {
                len = cand;
            }
        }
        m += 1;
    }
    let n = id.len();
    let cap: usize = if n > 1 {
        n
    } else {
        1
    };
    if len < cap {
        len
    } else {
        cap
    }
}

/// Whether `id` is already a key of `out`.
fn priced(out: &Vec<(String, usize)>, id: &Vec<char>) -> (r: bool)
    ensures
        r == exists|i: int| 0 <= i < out.len() && (#[trigger] out@[i]).0@ == id@,
{
    let mut q: usize = 0;
    while q < out.len()
        invariant
            q <= out.len(),
            forall|i: int| 0 <= i < q ==> (#[trigger] out@[i]).0@ != id@,
        decreases out.len() - q,
    {
        let key = crate::text::chars_of(out[q].0.as_str());
        if crate::text::chars_eq(&key, id) {
            return true;
        }
        q += 1;
    }
    false
}

/// The shortest prefix that tells each id apart from every other id on one
/// page, keyed by the full letters, at least one letter and at most the
/// whole id. Page-local by design: a prefix unique here may still be
/// ambiguous across the repository. One entry per distinct id, in the order
/// the ids first appear.
pub fn prefix_lens(ids: &Vec<&str>) -> (r: Vec<(String, usize)>)
    ensures
        forall|i: int|
            0 <= i < r.len() ==> views_str(ids@).contains(#[trigger] keys_of(r@)[i]),
        forall|j: int|
            0 <= j < ids.len() ==> keys_of(r@).contains(#[trigger] views_str(ids@)[j]),
        keys_of(r@).no_duplicates(),
        forall|i: int|
            0 <= i < r.len() ==> (#[trigger] r@[i]).1 == page_len(
                views_str(ids@),
                r@[i].0@,
            ),
{
    let ghost views = views_str(ids@);
    let mut chars: Vec<Vec<char>> = Vec::new();
    let mut j: usize = 0;
    while j < ids.len()
        invariant
            j <= ids.len(),
            chars.len() == j,
            forall|k: int| 0 <= k < j ==> (#[trigger] chars@[k])@ == ids@[k]@,
        decreases ids.len() - j,
    {
        chars.push(crate::text::chars_of(ids[j]));
        j += 1;
    }
    assert(views_of(chars@) =~= views);
    let mut out: Vec<(String, usize)> = Vec::new();
    // Where each key came from, and where each id landed.
    let ghost mut src: Seq<int> = Seq::empty();
    let ghost mut slot: Seq<int> = Seq::empty();
    let mut j: usize = 0;
    while j < ids.len()
        invariant
            j <= ids.len(),
            chars.len() == ids.len(),
            views == views_str(ids@),
            views_of(chars@) == views,
            forall|k: int| 0 <= k < ids.len() ==> (#[trigger] chars@[k])@ == ids@[k]@,
            src.len() == out.len(),
            slot.len() == j,
            forall|i: int|
                0 <= i < out.len() ==> 0 <= #[trigger] src[i] < j && ids@[src[i]]@ == out@[i].0@,
            forall|m: int|
                0 <= m < j ==> 0 <= #[trigger] slot[m] < out.len() && out@[slot[m]].0@ == ids@[m]@,
            forall|i: int| 0 <= i < out.len() ==> (#[trigger] out@[i]).1 == page_len(views, out@[i].0@),
            forall|i: int, k: int| 0 <= i < k < out.len() ==> out@[i].0@ != out@[k].0@,
        decreases ids.len() - j,
    {
        let id = &chars[j];
        // The same id twice is one id.
        if !priced(&out, id) {
            let fin = page_length(&chars, id);
            out.push((crate::text::string_of(id), fin));
            proof {
                src = src.push(j as int);
                slot = slot.push(out.len() - 1);
            }
        } else {
            proof {
                let i = choose|i: int| 0 <= i < out.len() && (#[trigger] out@[i]).0@ == id@;
                slot = slot.push(i);
            }
        }
        j += 1;
    }
    assert forall|i: int| 0 <= i < out.len() implies views.contains(#[trigger] keys_of(out@)[i]) by {
        let m = src[i];
        assert(views[m] == keys_of(out@)[i]);
    }
    assert forall|m: int| 0 <= m < ids.len() implies keys_of(out@).contains(#[trigger] views[m]) by {
        let i = slot[m];
        assert(keys_of(out@)[i] == views[m]);
    }
    assert forall|i: int, k: int|
        0 <= i < keys_of(out@).len() && 0 <= k < keys_of(out@).len() && i != k implies keys_of(
        out@)[i] != keys_of(out@)[k] by {
        if i < k {
            assert(out@[i].0@ != out@[k].0@);
        } else {
            assert(out@[k].0@ != out@[i].0@);
        }
    }
    out
}

/// An optional id's bytes.
pub open spec fn opt_id(o: Option<ChangeId>) -> Option<Seq<u8>> {
    match o {
        Some(id) => Some(id@),
        None => None,
    }
}

/// The value of the extra header `name` of a raw commit object, as UTF-8
/// text: `None` when the object does not parse as a commit, carries no such
/// header, or carries one that is not UTF-8.
pub uninterp spec fn gix_commit_header(raw: Seq<u8>, name: Seq<char>) -> Option<Seq<char>>;

/// The first extra header called `name` of a raw commit object, through
/// `gix::objs::CommitRef::from_bytes` and its `extra_headers().find`, as
/// UTF-8 text. The contract claims only that the result is a function of
/// the bytes and the name.
#[verifier::external_body]
fn commit_header(raw: &[u8], name: &str) -> (r: Option<String>)
    ensures
        crate::text::opt_view(r) == gix_commit_header(raw@, name@),
{
    gix::objs::CommitRef::from_bytes(raw, gix::hash::Kind::Sha1)
        .ok()
        .and_then(|commit| {
            commit
                .extra_headers()
                .find(name)
                .and_then(|value| std::str::from_utf8(value).ok())
                .map(|value| value.to_string())
        })
}

/// The id a `change-id` header value names: its text trimmed, when that
/// spells an id. A malformed value reads as no header at all.
pub open spec fn header_id_spec(value: Option<Seq<char>>) -> Option<Seq<u8>> {
    match value {
        Some(t) => if spells_id(trimmed(t)) {
            Some(parse_spec(trimmed(t)))
        } else {
            None
        },
        None => None,
    }
}

/// The id a `change-id` header value names, when it is well formed.
pub fn header_value_id(value: Option<String>) -> (r: Option<ChangeId>)
    ensures
        opt_id(r) == header_id_spec(crate::text::opt_view(value)),
{
    match value {
        Some(t) => {
            let v = crate::text::chars_of(t.as_str());
            let trimmed = crate::text::string_of(&crate::text::trim_chars(&v));
            ChangeId::parse(trimmed.as_str())
        },
        None => None,
    }
}

/// The commit's `change-id` header, when it carries a well-formed one.
pub fn header_of(raw: &[u8]) -> (r: Option<ChangeId>)
    ensures
        opt_id(r) == header_id_spec(gix_commit_header(raw@, HEADER@)),
{
    header_value_id(commit_header(raw, HEADER))
}

/// The commit's id: its header when present and well formed, else derived.
/// A malformed header is not an error; it reads as no header at all.
pub fn of_commit(raw: &[u8], sha: &Oid) -> (id: ChangeId)
    ensures
        id@ == match header_id_spec(gix_commit_header(raw@, HEADER@)) {
            Some(b) => b,
            None => derived_spec(sha@),
        },
{
    match header_of(raw) {
        Some(id) => id,
        None => ChangeId::derive(sha),
    }
}

/// The header pair a commit object carries: `("change-id", letters)`.
pub fn header(id: &ChangeId) -> (r: (String, String))
    ensures
        r.0@ == HEADER@,
        r.1@ == letters_spec(id@),
{
    (crate::text::owned(HEADER), id.letters())
}

} // verus!
