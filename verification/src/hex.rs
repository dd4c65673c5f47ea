//! Hexadecimal digits and the nibbles of a byte string, shared by object
//! ids, change ids and the letters alphabet.

use vstd::prelude::*;

verus! {

/// The lowercase hex digit of a value below sixteen.
pub open spec fn hex_char(v: int) -> char {
    if v < 10 {
        ((v + 48) as u8) as char
    } else {
        ((v + 87) as u8) as char
    }
}

/// The value of a hex digit in either case, or `-1` when `c` is not one.
pub open spec fn hex_val(c: char) -> int {
    let n = c as u32;
    if 48 <= n && n <= 57 {
        n - 48
    } else if 97 <= n && n <= 102 {
        n - 87
    } else if 65 <= n && n <= 70 {
        n - 55
    } else {
        -1
    }
}

/// The nibbles of a byte string, high half of each byte first.
pub open spec fn nibbles(b: Seq<u8>) -> Seq<int> {
    Seq::new(
        2 * b.len(),
        |i: int|
            if i % 2 == 0 {
                (b[i / 2] / 16) as int
            } else {
                (b[i / 2] % 16) as int
            },
    )
}

/// A byte string as lowercase hex, two digits a byte.
pub open spec fn hex_of(b: Seq<u8>) -> Seq<char> {
    nibbles(b).map_values(|v: int| hex_char(v))
}

/// The bytes spelled by an even run of hex digits of either case.
pub open spec fn bytes_of_hex(h: Seq<char>) -> Seq<u8> {
    Seq::new(h.len() / 2, |i: int| (hex_val(h[2 * i]) * 16 + hex_val(h[2 * i + 1])) as u8)
}

/// Whether every character is a hex digit of either case.
pub open spec fn all_hex(h: Seq<char>) -> bool {
    forall|i: int| 0 <= i < h.len() ==> hex_val(#[trigger] h[i]) >= 0
}

pub proof fn lemma_hex_char_val(v: int)
    requires
        0 <= v < 16,
    ensures
        hex_val(hex_char(v)) == v,
{
}

/// Reading the hex spelling of a byte string back gives the bytes.
pub proof fn lemma_hex_round_trip(b: Seq<u8>)
    ensures
        hex_of(b).len() == 2 * b.len(),
        all_hex(hex_of(b)),
        bytes_of_hex(hex_of(b)) == b,
{
    let h = hex_of(b);
    assert forall|i: int| 0 <= i < h.len() implies hex_val(#[trigger] h[i]) >= 0 by {
        let v = nibbles(b)[i];
        assert(0 <= v < 16);
        lemma_hex_char_val(v);
    }
    assert forall|i: int| 0 <= i < b.len() implies #[trigger] bytes_of_hex(h)[i] == b[i] by {
        let hi = nibbles(b)[2 * i];
        let lo = nibbles(b)[2 * i + 1];
        assert((2 * i) / 2 == i);
        assert((2 * i + 1) / 2 == i);
        assert((2 * i) % 2 == 0);
        assert((2 * i + 1) % 2 == 1);
        lemma_hex_char_val(hi);
        lemma_hex_char_val(lo);
    }
    assert(bytes_of_hex(h) =~= b);
}

/// The lowercase hex digit of a value below sixteen.
pub fn hex_digit(v: u8) -> (c: char)
    requires
        v < 16,
    ensures
        c == hex_char(v as int),
{
    if v < 10 {
        (v + 48) as char
    } else {
        (v + 87) as char
    }
}

/// The value of a hex digit, or `None` when `c` is not one.
pub fn hex_value(c: char) -> (r: Option<u8>)
    ensures
        hex_val(c) < 0 ==> r is None,
        hex_val(c) >= 0 ==> r == Some(hex_val(c) as u8),
{
    let n = c as u32;
    if 48 <= n && n <= 57 {
        Some((n - 48) as u8)
    } else if 97 <= n && n <= 102 {
        Some((n - 87) as u8)
    } else if 65 <= n && n <= 70 {
        Some((n - 55) as u8)
    } else {
        None
    }
}

/// A byte string as lowercase hex.
pub fn to_hex(b: &[u8]) -> (s: String)
    ensures
        s@ == hex_of(b@),
{
    let mut v: Vec<char> = Vec::new();
    let mut i: usize = 0;
    while i < b.len()
        invariant
            i <= b.len(),
            v@ == hex_of(b@.subrange(0, i as int)),
        decreases b.len() - i,
    {
        let x = b[i];
        v.push(hex_digit(x / 16));
        v.push(hex_digit(x % 16));
        i += 1;
        assert(v@ =~= hex_of(b@.subrange(0, i as int)));
    }
    assert(b@.subrange(0, b.len() as int) =~= b@);
    crate::text::string_of(&v)
}

/// The bytes an even run of hex digits spells, or `None` when a character
/// is not a hex digit or the run is odd.
pub fn from_hex_chars(h: &Vec<char>) -> (r: Option<Vec<u8>>)
    ensures
        r is Some <==> (all_hex(h@) && h.len() % 2 == 0),
        r matches Some(b) ==> b@ == bytes_of_hex(h@),
{
    if h.len() % 2 != 0 {
        return None;
    }
    let mut out: Vec<u8> = Vec::new();
    let mut i: usize = 0;
    while i < h.len() / 2
        invariant
            h.len() % 2 == 0,
            i <= h.len() / 2,
            forall|k: int| 0 <= k < 2 * i ==> hex_val(#[trigger] h@[k]) >= 0,
            out@ == bytes_of_hex(h@).subrange(0, i as int),
        decreases h.len() / 2 - i,
    {
        let hi = hex_value(h[2 * i]);
        let lo = hex_value(h[2 * i + 1]);
        match (hi, lo) {
            (Some(a), Some(b)) => {
                out.push(a * 16 + b);
            },
            _ => {
                return None;
            },
        }
        assert forall|k: int| 0 <= k < 2 * (i + 1) implies hex_val(#[trigger] h@[k]) >= 0 by {
            if k >= 2 * i {
                assert(k == 2 * i || k == 2 * i + 1);
            }
        }
        i += 1;
        assert(out@ =~= bytes_of_hex(h@).subrange(0, i as int));
    }
    assert(out@ =~= bytes_of_hex(h@));
    Some(out)
}

} // verus!
