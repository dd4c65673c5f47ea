//! The snapshot id index: per chain, a sorted file of snapshot ids.
//!
//! The uniqueness domain for prefix highlighting is exactly the set that
//! `ff restore --at` resolves against: the chain's live and trash ids. The
//! file is one 50-byte header, `<tip> <base as 8 hex digits>\n`, and then one
//! 41-byte record per id, `<id>\n`: the first `base` records sorted, the rest
//! an unsorted tail that capture appends to. Derived and disposable: any
//! file that fails the header rule is rebuilt from the chain.
//!
//! Here are the rules: the header check, the file's bytes, and the reads a
//! lookup makes of the records once they are at hand.

use vstd::prelude::*;
use crate::bytes::{bytes_le, bytes_lt, shared, sorted, views};
use crate::hex::{hex_char, nibbles};
use crate::hex::{all_hex, bytes_of_hex};
use crate::oid::{byte_chars, Oid};
use vstd::string::StringSliceAdditionalSpecFns;

verus! {

/// Bytes in the header.
pub const HEADER_LEN: usize = 50;

/// Bytes in one record: forty hex digits and a newline.
pub const RECORD_LEN: usize = 41;

/// The unsorted tail a read tolerates before merging it into the base.
pub const MERGE_TAIL: usize = 512;

/// Where a chain's live ids are named: `refs/fufu/snap/<chain>`.
pub const SNAP_PREFIX: &'static str = "refs/fufu/snap/";

/// Where a chain's trash ids are named: `refs/fufu/trash/<chain>`.
pub const TRASH_PREFIX: &'static str = "refs/fufu/trash/";

#[derive(Debug, Clone, Copy, PartialEq, Eq, Structural)]
pub enum Kind {
    Live,
    Trash,
}

impl Kind {
    /// The directory the kind's files live in.
    pub open spec fn dir_spec(self) -> Seq<char> {
        match self {
            Kind::Live => "live"@,
            Kind::Trash => "trash"@,
        }
    }

    /// The directory the kind's files live in: `live` or `trash`.
    pub fn dir(self) -> (r: &'static str)
        ensures
            r@ == self.dir_spec(),
    {
        match self {
            Kind::Live => "live",
            Kind::Trash => "trash",
        }
    }

    /// The chain ref the kind's ids come from.
    pub fn ref_name(self, chain_name: &str) -> (r: String)
        ensures
            r@ == match self {
                Kind::Live => SNAP_PREFIX@ + chain_name@,
                Kind::Trash => TRASH_PREFIX@ + chain_name@,
            },
    {
        match self {
            Kind::Live => crate::text::concat(SNAP_PREFIX, chain_name),
            Kind::Trash => crate::text::concat(TRASH_PREFIX, chain_name),
        }
    }
}

/// Read-only status of a live index file.
#[derive(Debug, PartialEq, Eq, Structural)]
pub enum Status {
    InSync { ids: u64 },
    Stale,
    Absent,
}

/// An id's forty lowercase hex digits, as bytes.
pub open spec fn hex_bytes(b: Seq<u8>) -> Seq<u8> {
    crate::hex::hex_of(b).map_values(|c: char| (c as u32) as u8)
}

/// The value of a hex digit byte of either case.
pub open spec fn digit_value(c: u8) -> Option<nat> {
    if 48 <= c <= 57 {
        Some((c - 48) as nat)
    } else if 97 <= c <= 102 {
        Some((c - 87) as nat)
    } else if 65 <= c <= 70 {
        Some((c - 55) as nat)
    } else {
        None
    }
}

/// The number hex digits spell, most significant first; `None` when a byte
/// is not a digit.
pub open spec fn digits_value(s: Seq<u8>) -> Option<nat>
    decreases s.len(),
{
    if s.len() == 0 {
        Some(0)
    } else {
        match (digits_value(s.drop_last()), digit_value(s.last())) {
            (Some(h), Some(d)) => Some(h * 16 + d),
            _ => None,
        }
    }
}

/// The base count a header field spells, as `usize::from_str_radix(_, 16)`
/// reads it: hex digits of either case, with one leading `+` allowed.
pub open spec fn base_value(f: Seq<u8>) -> Option<nat> {
    if f.len() > 1 && f[0] == 43 {
        digits_value(f.drop_first())
    } else if f.len() > 0 {
        digits_value(f)
    } else {
        None
    }
}

/// The header rule: a file length that is the header plus whole records, the
/// space and newline sentinels, the expected tip, and a base no larger than
/// the record count. What it gives is the base and the record count.
pub open spec fn header_rule(len: nat, header: Seq<u8>, tip: Seq<u8>) -> Option<(nat, nat)> {
    if len < 50 || (len - 50) % 41 != 0 || header.len() < 50 {
        None
    } else if header[40] != 32 || header[49] != 10 {
        None
    } else if header.take(40) != hex_bytes(tip) {
        None
    } else {
        let total = ((len - 50) / 41) as nat;
        match base_value(header.subrange(41, 49)) {
            Some(base) => if base <= total {
                Some((base, total))
            } else {
                None
            },
            None => None,
        }
    }
}

fn digit_of(c: u8) -> (r: Option<u64>)
    ensures
        r matches Some(v) ==> digit_value(c) == Some(v as nat),
        r is None ==> digit_value(c) is None,
{
    if 48 <= c && c <= 57 {
        Some((c - 48) as u64)
    } else if 97 <= c && c <= 102 {
        Some((c - 87) as u64)
    } else if 65 <= c && c <= 70 {
        Some((c - 55) as u64)
    } else {
        None
    }
}

fn digits_of(s: &Vec<u8>, from: usize, to: usize) -> (r: Option<u64>)
    requires
        from <= to <= s.len(),
        to - from <= 8,
    ensures
        r matches Some(v) ==> digits_value(s@.subrange(from as int, to as int)) == Some(v as nat),
        r is None ==> digits_value(s@.subrange(from as int, to as int)) is None,
{
    let mut acc: u64 = 0;
    let mut i: usize = from;
    assert(s@.subrange(from as int, from as int) =~= Seq::<u8>::empty());
    while i < to
        invariant
            from <= i <= to <= s.len(),
            to - from <= 8,
            digits_value(s@.subrange(from as int, i as int)) == Some(acc as nat),
            acc < pow16((i - from) as nat),
        decreases to - i,
    {
        let ghost part = s@.subrange(from as int, i + 1);
        assert(part.drop_last() =~= s@.subrange(from as int, i as int));
        assert(part.last() == s@[i as int]);
        match digit_of(s[i]) {
            Some(d) => {
                proof {
                    lemma_pow16_step((i - from) as nat);
                    lemma_pow16_bound((i + 1 - from) as nat);
                }
                acc = acc * 16 + d;
            },
            None => {
                proof {
                    lemma_digits_none(s@.subrange(from as int, to as int), i - from);
                    assert(s@.subrange(from as int, to as int).take(i + 1 - from) =~= part);
                }
                return None;
            },
        }
        i += 1;
    }
    Some(acc)
}

/// Sixteen to the `n`.
pub open spec fn pow16(n: nat) -> nat
    decreases n,
{
    if n == 0 {
        1
    } else {
        16 * pow16((n - 1) as nat)
    }
}

proof fn lemma_pow16_step(n: nat)
    ensures
        pow16(n + 1) == 16 * pow16(n),
{
}

proof fn lemma_pow16_bound(n: nat)
    requires
        n <= 8,
    ensures
        pow16(n) <= 0x1_0000_0000,
    decreases 8 - n,
{
    if n < 8 {
        lemma_pow16_bound(n + 1);
    } else {
        reveal_with_fuel(pow16, 9);
    }
}

/// A non-digit anywhere makes the whole field unreadable.
proof fn lemma_digits_none(s: Seq<u8>, k: int)
    requires
        0 <= k < s.len(),
        digit_value(s[k]) is None,
    ensures
        digits_value(s) is None,
        digits_value(s.take(k + 1)) is None,
    decreases s.len(),
{
    assert(s.take(k + 1).last() == s[k]);
    if k + 1 < s.len() {
        assert(s.drop_last()[k] == s[k]);
        lemma_digits_none(s.drop_last(), k);
        assert(s.drop_last().take(k + 1) =~= s.take(k + 1));
    } else {
        assert(s.take(k + 1) =~= s);
    }
}

/// Check an index file against its chain's tip: the file's length and its
/// first bytes (fewer than fifty when the file is shorter). It gives the
/// base and the record count, or `None` when the file must be rebuilt.
pub fn check_header(len: u64, header: &Vec<u8>, tip: &Oid) -> (r: Option<(u64, u64)>)
    ensures
        match header_rule(len as nat, header@, tip@) {
            Some((b, t)) => r == Some((b as u64, t as u64)),
            None => r is None,
        },
{
    if len < 50 || (len - 50) % 41 != 0 || header.len() < 50 {
        return None;
    }
    if header[40] != 32 || header[49] != 10 {
        return None;
    }
    let hex = crate::hex::to_hex(tip.0.as_slice());
    let hv = crate::text::chars_of(hex.as_str());
    let mut i: usize = 0;
    while i < 40
        invariant
            i <= 40,
            header@.len() >= 50,
            tip@.len() == 20,
            hv@ == crate::hex::hex_of(tip@),
            forall|k: int| 0 <= k < i ==> header@[k] == hex_bytes(tip@)[k],
        decreases 40 - i,
    {
        proof {
            assert(nibbles(tip@).len() == 40);
        }
        let c = hv[i];
        let want: u8 = digit_byte(c);
        if header[i] != want {
            proof {
                assert(header@.take(40)[i as int] != hex_bytes(tip@)[i as int]);
            }
            return None;
        }
        i += 1;
    }
    proof {
        assert(nibbles(tip@).len() == 40);
        assert(header@.take(40) =~= hex_bytes(tip@));
    }
    let total: u64 = (len - 50) / 41;
    let field = crate::bytes::slice(header, 41, 49);
    let base = if field[0] == 43 {
        digits_of(&field, 1, 8)
    } else {
        digits_of(&field, 0, 8)
    };
    proof {
        assert(field@.subrange(0, 8) =~= field@);
        assert(field@.subrange(1, 8) =~= field@.drop_first());
        assert(field@ =~= header@.subrange(41, 49));
    }
    match base {
        Some(b) => if b <= total {
            Some((b, total))
        } else {
            None
        },
        None => None,
    }
}

/// The byte a hex digit character is written as.
fn digit_byte(c: char) -> (r: u8)
    ensures
        r == (c as u32) as u8,
{
    (c as u32) as u8
}

/// `n` in lowercase hex, padded with zeros to at least eight digits, as
/// `{:08x}` writes it.
pub open spec fn hex8(n: nat) -> Seq<char> {
    let d = hex_digits(n);
    if d.len() < 8 {
        Seq::new((8 - d.len()) as nat, |i: int| '0') + d
    } else {
        d
    }
}

/// `n`'s lowercase hex digits, most significant first.
pub open spec fn hex_digits(n: nat) -> Seq<char>
    decreases n,
{
    if n < 16 {
        seq![hex_char(n as int)]
    } else {
        hex_digits(n / 16).push(hex_char((n % 16) as int))
    }
}

fn hex_digits_of(n: u64) -> (s: Vec<char>)
    ensures
        s@ == hex_digits(n as nat),
    decreases n,
{
    if n < 16 {
        vec![crate::hex::hex_digit(n as u8)]
    } else {
        let mut s = hex_digits_of(n / 16);
        s.push(crate::hex::hex_digit((n % 16) as u8));
        s
    }
}

/// `n` as `{:08x}` writes it.
pub fn hex8_string(n: u64) -> (s: String)
    ensures
        s@ == hex8(n as nat),
{
    let d = hex_digits_of(n);
    let mut out: Vec<char> = Vec::new();
    if d.len() < 8 {
        let pad = 8 - d.len();
        let mut i: usize = 0;
        while i < pad
            invariant
                i <= pad,
                out@ == Seq::new(i as nat, |k: int| '0'),
            decreases pad - i,
        {
            out.push('0');
            i += 1;
            assert(out@ =~= Seq::new(i as nat, |k: int| '0'));
        }
    }
    let mut k: usize = 0;
    let ghost head = out@;
    while k < d.len()
        invariant
            k <= d@.len(),
            out@ == head + d@.take(k as int),
        decreases d.len() - k,
    {
        out.push(d[k]);
        k += 1;
        assert(out@ =~= head + d@.take(k as int));
    }
    assert(d@.take(d@.len() as int) =~= d@);
    crate::text::string_of(&out)
}

/// The index file's text: the header, then each id and a newline.
pub open spec fn index_text(tip: Seq<u8>, ids: Seq<Seq<char>>) -> Seq<char> {
    crate::hex::hex_of(tip) + seq![' '] + hex8(ids.len()) + seq!['\n'] + records_text(ids)
}

/// Each id followed by a newline.
pub open spec fn records_text(ids: Seq<Seq<char>>) -> Seq<char>
    decreases ids.len(),
{
    if ids.len() == 0 {
        Seq::empty()
    } else {
        records_text(ids.drop_last()) + ids.last() + seq!['\n']
    }
}

/// The text of an index file for `tip` over the sorted `ids`; `None` when
/// an id is not exactly forty bytes, which refuses the write.
pub fn index_body(tip: &Oid, sorted_ids: &Vec<String>) -> (r: Option<String>)
    ensures
        r is Some <==> forall|i: int| 0 <= i < sorted_ids@.len() ==> vstd::utf8::encode_utf8((#[trigger] sorted_ids@[i])@).len() == 40,
        r matches Some(t) ==> t@ == index_text(tip@, sorted_ids@.map_values(|s: String| s@)),
{
    let mut i: usize = 0;
    while i < sorted_ids.len()
        invariant
            i <= sorted_ids@.len(),
            forall|k: int| 0 <= k < i ==> vstd::utf8::encode_utf8((#[trigger] sorted_ids@[k])@).len() == 40,
        decreases sorted_ids.len() - i,
    {
        let b = sorted_ids[i].as_str().as_bytes_vec();
        if b.len() != 40 {
            return None;
        }
        i += 1;
    }
    let ghost ids = sorted_ids@.map_values(|s: String| s@);
    let mut out: Vec<char> = crate::text::chars_of(crate::hex::to_hex(tip.0.as_slice()).as_str());
    out.push(' ');
    let n = hex8_string(sorted_ids.len() as u64);
    crate::text::extend_chars(&mut out, n.as_str());
    out.push('\n');
    let ghost head = out@;
    let mut k: usize = 0;
    while k < sorted_ids.len()
        invariant
            k <= sorted_ids@.len(),
            ids == sorted_ids@.map_values(|s: String| s@),
            out@ == head + records_text(ids.take(k as int)),
        decreases sorted_ids.len() - k,
    {
        crate::text::extend_chars(&mut out, sorted_ids[k].as_str());
        out.push('\n');
        proof {
            assert(ids.take(k + 1).drop_last() =~= ids.take(k as int));
            assert(out@ =~= head + records_text(ids.take(k + 1)));
        }
        k += 1;
    }
    proof {
        assert(ids.take(ids.len() as int) =~= ids);
        assert(ids.len() == sorted_ids@.len());
    }
    Some(crate::text::string_of(&out))
}

/// The header a capture writes after appending one record: the new tip and
/// the unchanged base count.
pub fn header_line(tip: &Oid, base: u64) -> (r: String)
    ensures
        r@ == crate::hex::hex_of(tip@) + seq![' '] + hex8(base as nat) + seq!['\n'],
{
    let mut out: Vec<char> = crate::text::chars_of(crate::hex::to_hex(tip.0.as_slice()).as_str());
    out.push(' ');
    let n = hex8_string(base);
    crate::text::extend_chars(&mut out, n.as_str());
    out.push('\n');
    crate::text::string_of(&out)
}

/// An index's records, read: the first `base` sorted, the rest the tail
/// captures appended. A record that could not be read is empty, which
/// compares unequal to every real id and so degrades one row, never the
/// command.
pub struct Index {
    pub records: Vec<Vec<u8>>,
    pub base: usize,
}

/// The longest prefix `id` shares with some record other than itself is
/// `r`: no record that is not `id` shares more, and one shares exactly `r`
/// unless `r` is zero.
pub open spec fn best_shared(records: Seq<Seq<u8>>, id: Seq<u8>, r: nat) -> bool {
    &&& forall|i: int| 0 <= i < records.len() && records[i] != id ==> shared(#[trigger] records[i], id) <= r
    &&& r == 0 || exists|i: int| 0 <= i < records.len() && records[i] != id && shared(#[trigger] records[i], id) == r
}

impl Index {
    /// The base never runs past the records.
    pub open spec fn wf(&self) -> bool {
        self.base <= self.records@.len()
    }

    /// The base part is sorted.
    pub open spec fn base_sorted(&self) -> bool {
        sorted(views(self.records@).take(self.base as int))
    }

    /// The records as byte strings.
    pub open spec fn view_records(&self) -> Seq<Seq<u8>> {
        views(self.records@)
    }

    /// An index held in memory: the records all sorted, all of them base.
    pub fn from_sorted(records: Vec<Vec<u8>>) -> (r: Index)
        requires
            sorted(views(records@)),
        ensures
            r.wf(),
            r.base_sorted(),
            r.base == records@.len(),
            r.records@ == records@,
            r.view_records() == views(records@),
    {
        let n = records.len();
        let r = Index { records, base: n };
        assert(views(r.records@).take(n as int) =~= views(r.records@));
        r
    }

    /// Whether the tail has grown past what a read tolerates.
    pub fn merge_due(&self) -> (r: bool)
        requires
            self.wf(),
        ensures
            r == (self.records@.len() - self.base > MERGE_TAIL),
    {
        self.records.len() - self.base > MERGE_TAIL
    }

    /// Every readable record, sorted, as an index whose base is all of it.
    pub fn merged(&self) -> (r: Index)
        ensures
            r.wf(),
            r.base_sorted(),
            r.base == r.records@.len(),
            r.view_records().to_multiset() == self.view_records().filter(|v: Seq<u8>| v.len() > 0).to_multiset(),
    {
        let mut keep: Vec<Vec<u8>> = Vec::new();
        let mut i: usize = 0;
        while i < self.records.len()
            invariant
                i <= self.records@.len(),
                views(keep@) == views(self.records@).take(i as int).filter(|v: Seq<u8>| v.len() > 0),
            decreases self.records.len() - i,
        {
            proof {
                assert(views(self.records@).take(i + 1) =~= views(self.records@).take(i as int).push(self.records@[i as int]@));
                views(self.records@).take(i as int).lemma_filter_push(self.records@[i as int]@, |v: Seq<u8>| v.len() > 0);
            }
            if self.records[i].len() > 0 {
                let ghost before = views(keep@);
                keep.push(self.records[i].clone());
                assert(views(keep@) =~= before.push(self.records@[i as int]@));
            }
            i += 1;
        }
        proof {
            assert(views(self.records@).take(self.records@.len() as int) =~= views(self.records@));
        }
        let sorted_keep = crate::bytes::sort(keep);
        Index::from_sorted(sorted_keep)
    }

    /// The first base position whose record does not sort before `key`:
    /// the binary search every lookup starts from.
    pub fn lower_bound(&self, key: &Vec<u8>) -> (r: usize)
        requires
            self.wf(),
        ensures
            r <= self.base,
            self.base_sorted() ==> forall|i: int| 0 <= i < r ==> bytes_lt(#[trigger] self.records@[i]@, key@),
            self.base_sorted() ==> forall|i: int| r <= i < self.base ==> !bytes_lt(#[trigger] self.records@[i]@, key@),
    {
        let mut lo: usize = 0;
        let mut hi: usize = self.base;
        while lo < hi
            invariant
                self.wf(),
                lo <= hi <= self.base,
                self.base_sorted() ==> forall|i: int| 0 <= i < lo ==> bytes_lt(#[trigger] self.records@[i]@, key@),
                self.base_sorted() ==> forall|i: int| hi <= i < self.base ==> !bytes_lt(#[trigger] self.records@[i]@, key@),
            decreases hi - lo,
        {
            let mid = lo + (hi - lo) / 2;
            if crate::bytes::lt(&self.records[mid], key) {
                proof {
                    if self.base_sorted() {
                        assert forall|i: int| 0 <= i < mid + 1 implies bytes_lt(#[trigger] self.records@[i]@, key@) by {
                            if i < mid {
                                assert(views(self.records@).take(self.base as int)[i] == self.records@[i]@);
                                assert(views(self.records@).take(self.base as int)[mid as int] == self.records@[mid as int]@);
                                assert(bytes_le(self.records@[i]@, self.records@[mid as int]@));
                                if bytes_lt(self.records@[i]@, self.records@[mid as int]@) {
                                    crate::bytes::lemma_lt_transitive(self.records@[i]@, self.records@[mid as int]@, key@);
                                }
                            }
                        }
                    }
                }
                lo = mid + 1;
            } else {
                proof {
                    if self.base_sorted() {
                        assert forall|i: int| mid <= i < self.base implies !bytes_lt(#[trigger] self.records@[i]@, key@) by {
                            if i > mid {
                                assert(views(self.records@).take(self.base as int)[i] == self.records@[i]@);
                                assert(views(self.records@).take(self.base as int)[mid as int] == self.records@[mid as int]@);
                                assert(bytes_le(self.records@[mid as int]@, self.records@[i]@));
                                crate::bytes::lemma_lt_total(self.records@[i]@, key@);
                                crate::bytes::lemma_lt_total(self.records@[mid as int]@, key@);
                                if bytes_lt(self.records@[i]@, key@) && bytes_lt(self.records@[mid as int]@, self.records@[i]@) {
                                    crate::bytes::lemma_lt_transitive(self.records@[mid as int]@, self.records@[i]@, key@);
                                }
                            }
                        }
                    }
                }
                hi = mid;
            }
        }
        lo
    }

    /// The longest prefix `id` shares with any other record. With the base
    /// sorted, the nearest record on either side of `id` shares the most of
    /// its side, so each side is one read; the tail is scanned.
    pub fn longest_common(&self, id: &Vec<u8>) -> (r: usize)
        requires
            self.wf(),
        ensures
            self.base_sorted() ==> best_shared(self.view_records(), id@, r as nat),
    {
        let ghost rs = self.view_records();
        if self.records.len() == 0 {
            return 0;
        }
        let mut best: usize = 0;
        let ghost mut wit: int = 0;
        let bound = self.lower_bound(id);
        // Below the bound: every record sorts before `id`, so the nearest is
        // the one just below it.
        if bound > 0 {
            let rec = &self.records[bound - 1];
            if !crate::bytes::eq(rec, id) {
                best = crate::bytes::shared_len(rec, id);
                proof {
                    wit = bound - 1;
                }
            }
        }
        // From the bound: skip records equal to `id`; the first other one is
        // the nearest above it.
        let mut j: usize = bound;
        while j < self.base && crate::bytes::eq(&self.records[j], id)
            invariant
                self.wf(),
                bound <= j <= self.base,
                forall|k: int| bound <= k < j ==> (#[trigger] self.records@[k])@ == id@,
            decreases self.base - j,
        {
            j += 1;
        }
        if j < self.base {
            let s = crate::bytes::shared_len(&self.records[j], id);
            if s > best {
                best = s;
                proof {
                    wit = j as int;
                }
            }
        }
        proof {
            assert(best == 0 || (0 <= wit < rs.len() && rs[wit] != id@ && shared(rs[wit], id@) == best));
        }
        let ghost bb = best;
        // The tail is unsorted: every record in it is read.
        let mut t: usize = self.base;
        while t < self.records.len()
            invariant
                self.wf(),
                rs == self.view_records(),
                self.base <= t <= self.records@.len(),
                best >= bb,
                best == 0 || (0 <= wit < rs.len() && rs[wit] != id@ && shared(rs[wit], id@) == best),
                forall|k: int| self.base <= k < t && rs[k] != id@ ==> shared(#[trigger] rs[k], id@) <= best,
            decreases self.records.len() - t,
        {
            if !crate::bytes::eq(&self.records[t], id) {
                let s = crate::bytes::shared_len(&self.records[t], id);
                if s > best {
                    best = s;
                    proof {
                        wit = t as int;
                    }
                }
            }
            t += 1;
        }
        proof {
            if self.base_sorted() {
                let sb = views(self.records@).take(self.base as int);
                assert forall|i: int| 0 <= i < rs.len() && rs[i] != id@ implies shared(#[trigger] rs[i], id@) <= best by {
                    if i < self.base {
                        assert(sb[i] == rs[i]);
                        if i < bound {
                            assert(bytes_lt(rs[i], id@));
                            assert(bound > 0);
                            assert(sb[bound - 1] == rs[bound - 1]);
                            assert(bytes_lt(rs[bound - 1], id@));
                            crate::bytes::lemma_lt_total(rs[bound - 1], id@);
                            if i < bound - 1 {
                                assert(bytes_le(rs[i], rs[bound - 1]));
                            }
                            crate::bytes::lemma_between_shares_more(rs[i], rs[bound - 1], id@);
                        } else {
                            assert(!bytes_lt(rs[i], id@));
                            assert(i >= j);
                            assert(j < self.base);
                            assert(sb[j as int] == rs[j as int]);
                            crate::bytes::lemma_lt_total(rs[j as int], id@);
                            crate::bytes::lemma_lt_total(rs[i], id@);
                            assert(bytes_lt(id@, rs[j as int]));
                            if i > j {
                                assert(bytes_le(rs[j as int], rs[i]));
                            }
                            crate::bytes::lemma_between_shares_more(id@, rs[j as int], rs[i]);
                            crate::bytes::lemma_shared(id@, rs[i]);
                            crate::bytes::lemma_shared(id@, rs[j as int]);
                        }
                    }
                }
            }
            if best > 0 {
                assert(rs[wit] != id@ && shared(rs[wit], id@) == best);
            }
        }
        best
    }
}


impl Index {
    /// Add to `out` every record that starts with `prefix` and is not in it
    /// yet. In a sorted base such records stand together from the lower
    /// bound on, so the base costs a search and a short scan; the tail is
    /// read whole.
    pub fn collect_matches(&self, prefix: &Vec<u8>, out: &mut Vec<Vec<u8>>)
        requires
            self.wf(),
        ensures
            views(old(out)@).is_prefix_of(views(final(out)@)),
            forall|i: int| old(out)@.len() <= i < final(out)@.len() ==> {
                &&& prefix@.is_prefix_of((#[trigger] final(out)@[i])@)
                &&& self.view_records().contains(final(out)@[i]@)
                &&& !views(final(out)@).take(i).contains(final(out)@[i]@)
            },
            self.base_sorted() ==> forall|k: int| 0 <= k < self.records@.len() && prefix@.is_prefix_of(#[trigger] self.records@[k]@) ==> views(final(out)@).contains(self.records@[k]@),
    {
        let ghost start = views(out@);
        let ghost start_len: int = out@.len() as int;
        let ghost rs = self.view_records();
        let lb = self.lower_bound(prefix);
        let mut i = lb;
        let mut stopped = false;
        while i < self.base && !stopped
            invariant
                self.wf(),
                rs == self.view_records(),
                lb <= i <= self.base,
                start.is_prefix_of(views(out@)),
                start_len == start.len(),
                forall|a: int| start_len <= a < out@.len() ==> {
                    &&& prefix@.is_prefix_of((#[trigger] out@[a])@)
                    &&& rs.contains(out@[a]@)
                    &&& !views(out@).take(a).contains(out@[a]@)
                },
                forall|k: int| lb <= k < i ==> views(out@).contains(#[trigger] rs[k]),
                stopped ==> i < self.base && !prefix@.is_prefix_of(rs[i as int]),
            decreases self.base - i + (if stopped { 0int } else { 1int }),
        {
            if !crate::bytes::starts_with(&self.records[i], prefix) {
                stopped = true;
            } else {
                let ghost before = out@;
                self.add_fresh(i, out, Ghost(start_len));
                proof {
                    assert(views(before).is_prefix_of(views(out@)));
                    assert forall|a: int| start_len <= a < out@.len() implies {
                        &&& prefix@.is_prefix_of((#[trigger] out@[a])@)
                        &&& rs.contains(out@[a]@)
                        &&& !views(out@).take(a).contains(out@[a]@)
                    } by {
                        if a < before.len() {
                            assert(out@[a] == before[a]);
                            assert(views(out@).take(a) =~= views(before).take(a));
                        } else {
                            assert(views(out@).take(a) =~= views(before));
                            assert(rs[i as int] == self.records@[i as int]@);
                        }
                    }
                }
                i += 1;
            }
        }
        let mut j = self.base;
        while j < self.records.len()
            invariant
                self.wf(),
                rs == self.view_records(),
                self.base <= j <= self.records@.len(),
                start.is_prefix_of(views(out@)),
                start_len == start.len(),
                forall|a: int| start_len <= a < out@.len() ==> {
                    &&& prefix@.is_prefix_of((#[trigger] out@[a])@)
                    &&& rs.contains(out@[a]@)
                    &&& !views(out@).take(a).contains(out@[a]@)
                },
                forall|k: int| lb <= k < i ==> views(out@).contains(#[trigger] rs[k]),
                forall|k: int| self.base <= k < j && prefix@.is_prefix_of(rs[k]) ==> views(out@).contains(#[trigger] rs[k]),
                stopped ==> i < self.base && !prefix@.is_prefix_of(rs[i as int]),
                !stopped ==> i == self.base,
            decreases self.records.len() - j,
        {
            if crate::bytes::starts_with(&self.records[j], prefix) {
                let ghost before = out@;
                self.add_fresh(j, out, Ghost(start_len));
                proof {
                    assert(views(before).is_prefix_of(views(out@)));
                    assert forall|a: int| start_len <= a < out@.len() implies {
                        &&& prefix@.is_prefix_of((#[trigger] out@[a])@)
                        &&& rs.contains(out@[a]@)
                        &&& !views(out@).take(a).contains(out@[a]@)
                    } by {
                        if a < before.len() {
                            assert(out@[a] == before[a]);
                            assert(views(out@).take(a) =~= views(before).take(a));
                        } else {
                            assert(views(out@).take(a) =~= views(before));
                            assert(rs[j as int] == self.records@[j as int]@);
                        }
                    }
                }
            }
            j += 1;
        }
        proof {
            if self.base_sorted() {
                let sb = views(self.records@).take(self.base as int);
                assert forall|k: int| 0 <= k < self.records@.len() && prefix@.is_prefix_of(#[trigger] self.records@[k]@) implies views(out@).contains(self.records@[k]@) by {
                    assert(rs[k] == self.records@[k]@);
                    if k < self.base {
                        crate::bytes::lemma_prefix_order(prefix@, rs[i as int], rs[k]);
                        if k < lb {
                            assert(bytes_lt(rs[k], prefix@));
                        } else if k >= i {
                            assert(stopped);
                            assert(sb[i as int] == rs[i as int] && sb[k] == rs[k]);
                            assert(!bytes_lt(rs[i as int], prefix@));
                            assert(bytes_lt(rs[k], rs[i as int]));
                            if k > i {
                                assert(bytes_le(rs[i as int], rs[k]));
                                crate::bytes::lemma_lt_total(rs[k], rs[i as int]);
                            }
                        }
                    }
                }
            }
        }
    }

    /// Push record `k` onto `out` unless it is there already.
    fn add_fresh(&self, k: usize, out: &mut Vec<Vec<u8>>, Ghost(start_len): Ghost<int>)
        requires
            k < self.records@.len(),
            0 <= start_len <= old(out)@.len(),
        ensures
            views(old(out)@).is_prefix_of(views(final(out)@)),
            views(final(out)@).contains(self.records@[k as int]@),
            final(out)@.len() <= old(out)@.len() + 1,
            final(out)@.len() == old(out)@.len() + 1 ==> final(out)@[old(out)@.len() as int]@ == self.records@[k as int]@
                && !views(old(out)@).contains(self.records@[k as int]@),
            forall|a: int| start_len <= a < old(out)@.len() ==> (#[trigger] final(out)@[a]) == old(out)@[a],
    {
        let mut seen = false;
        let mut m: usize = 0;
        while m < out.len()
            invariant
                m <= out@.len(),
                k < self.records@.len(),
                seen == exists|a: int| 0 <= a < m && out@[a]@ == self.records@[k as int]@,
            decreases out.len() - m,
        {
            if crate::bytes::eq(&out[m], &self.records[k]) {
                seen = true;
            }
            m += 1;
        }
        let ghost before = views(out@);
        if !seen {
            out.push(self.records[k].clone());
            proof {
                assert(views(out@) =~= before.push(self.records@[k as int]@));
                assert(views(out@)[before.len() as int] == self.records@[k as int]@);
                if before.contains(self.records@[k as int]@) {
                    let a = choose|a: int| 0 <= a < before.len() && before[a] == self.records@[k as int]@;
                    assert(out@[a]@ == before[a]);
                }
            }
        } else {
            proof {
                let a = choose|a: int| 0 <= a < m && out@[a]@ == self.records@[k as int]@;
                assert(views(out@)[a] == self.records@[k as int]@);
            }
        }
        proof {
            assert(before.is_prefix_of(views(out@)));
        }
    }
}

/// The number of leading bytes two strings share.
pub fn common_prefix(a: &str, b: &str) -> (n: usize)
    ensures
        n == shared(a.spec_bytes(), b.spec_bytes()),
{
    let x = a.as_bytes_vec();
    let y = b.as_bytes_vec();
    crate::bytes::shared_len(&x, &y)
}

/// The shortest unique prefix of `id` over the live and trash records: one
/// byte more than the most it shares with any other record of either, and
/// no longer than `id` itself (at least one).
pub fn unique_len(live: &Index, trash: &Index, id: &str) -> (r: usize)
    requires
        live.wf(),
        trash.wf(),
        live.base_sorted(),
        trash.base_sorted(),
    ensures
        exists|m: nat| {
            &&& best_shared(live.view_records() + trash.view_records(), id.spec_bytes(), m)
            &&& r == if m + 1 <= (if id.spec_bytes().len() > 0 { id.spec_bytes().len() } else { 1 }) {
                m + 1
            } else {
                if id.spec_bytes().len() > 0 { id.spec_bytes().len() } else { 1 }
            }
        },
{
    let key = id.as_bytes_vec();
    let a = live.longest_common(&key);
    let b = trash.longest_common(&key);
    let m = if a > b { a } else { b };
    let cap = if key.len() > 0 { key.len() } else { 1 };
    proof {
        lemma_best_of_union(live.view_records(), trash.view_records(), key@, a as nat, b as nat);
    }
    let shared_max: usize = m;
    if shared_max < cap {
        shared_max + 1
    } else {
        cap
    }
}

/// The most an id shares with the records of two lists together is the
/// larger of what it shares with each: the nearest neighbour in the union
/// is whichever of the two per-list neighbours is closer.
pub proof fn lemma_best_of_union(x: Seq<Seq<u8>>, y: Seq<Seq<u8>>, id: Seq<u8>, a: nat, b: nat)
    requires
        best_shared(x, id, a),
        best_shared(y, id, b),
    ensures
        best_shared(x + y, id, if a > b { a } else { b }),
{
    let u = x + y;
    let m = if a > b { a } else { b };
    assert forall|i: int| 0 <= i < u.len() && u[i] != id implies shared(#[trigger] u[i], id) <= m by {
        if i < x.len() {
            assert(u[i] == x[i]);
        } else {
            assert(u[i] == y[i - x.len()]);
        }
    }
    if m > 0 {
        if a > b {
            let i = choose|i: int| 0 <= i < x.len() && x[i] != id && shared(#[trigger] x[i], id) == a;
            assert(u[i] == x[i]);
        } else {
            let i = choose|i: int| 0 <= i < y.len() && y[i] != id && shared(#[trigger] y[i], id) == b;
            assert(u[i + x.len()] == y[i]);
        }
    }
}

/// The live file's status: absent when there is no file, stale when its
/// chain is gone or its header fails the rule, and otherwise in sync with
/// its record count. `file` is the file's length and first bytes.
pub fn status_of(file: Option<(u64, Vec<u8>)>, tip: Option<Oid>) -> (r: Status)
    ensures
        file is None ==> r == Status::Absent,
        file is Some && tip is None ==> r == Status::Stale,
        file matches Some((len, header)) ==> (tip matches Some(t) ==> match header_rule(len as nat, header@, t@) {
            Some((_, total)) => r == Status::InSync { ids: total as u64 },
            None => r == Status::Stale,
        }),
{
    match file {
        None => Status::Absent,
        Some((len, header)) => match tip {
            None => Status::Stale,
            Some(t) => match check_header(len, &header, &t) {
                Some((_, total)) => Status::InSync { ids: total },
                None => Status::Stale,
            },
        },
    }
}
/// The ids that the collected records spell, in the order collected: each
/// record that is forty hex digits gives one, the others none.
pub open spec fn parsed_ids(seen: Seq<Seq<u8>>) -> Seq<Seq<u8>>
    decreases seen.len(),
{
    if seen.len() == 0 {
        Seq::empty()
    } else {
        let rest = parsed_ids(seen.drop_last());
        let h = byte_chars(seen.last());
        if h.len() == 40 && all_hex(h) {
            rest.push(bytes_of_hex(h))
        } else {
            rest
        }
    }
}

/// The candidates a prefix lookup hands back: each collected record parsed
/// as an id, the ones that do not parse dropped.
pub fn parse_candidates(seen: &Vec<Vec<u8>>) -> (r: Vec<Oid>)
    ensures
        r@.map_values(|o: Oid| o@) == parsed_ids(views(seen@)),
{
    let mut out: Vec<Oid> = Vec::new();
    let mut i: usize = 0;
    while i < seen.len()
        invariant
            i <= seen@.len(),
            out@.map_values(|o: Oid| o@) == parsed_ids(views(seen@).take(i as int)),
        decreases seen.len() - i,
    {
        proof {
            assert(views(seen@).take(i + 1).drop_last() =~= views(seen@).take(i as int));
            assert(views(seen@).take(i + 1).last() == seen@[i as int]@);
        }
        let ghost before = out@;
        match Oid::from_hex_bytes(seen[i].as_slice()) {
            Some(o) => {
                out.push(o);
                assert(out@.map_values(|o: Oid| o@) =~= before.map_values(|o: Oid| o@).push(o@));
            },
            None => {},
        }
        i += 1;
    }
    assert(views(seen@).take(seen@.len() as int) =~= views(seen@));
    out
}

} // verus!
