//! The letters alphabet ids are spelled in: each hex digit `0`–`f` becomes
//! one of `z` down to `k`, jj's spelling, so an id reads as letters and never
//! as a sha. Reading is case-insensitive and length-agnostic.

use vstd::prelude::*;
use crate::hex::{hex_char, hex_val, all_hex};

verus! {

/// The letter of a value below sixteen: `0` is `z`, `15` is `k`.
pub open spec fn letter_of(v: int) -> char {
    ((122 - v) as u8) as char
}

/// The value a letter stands for, either case, or `-1` when `c` is not one
/// of the sixteen.
pub open spec fn letter_val(c: char) -> int {
    let n = c as u32;
    if 107 <= n && n <= 122 {
        122 - n
    } else if 75 <= n && n <= 90 {
        90 - n
    } else {
        -1
    }
}

/// Whether every character is one of the sixteen letters, either case.
pub open spec fn all_letters(s: Seq<char>) -> bool {
    forall|i: int| 0 <= i < s.len() ==> letter_val(#[trigger] s[i]) >= 0
}

/// The letters spelling of a hex spelling.
pub open spec fn encode_spec(hex: Seq<char>) -> Seq<char> {
    hex.map_values(|c: char| letter_of(hex_val(c)))
}

/// The hex spelling of a letters spelling, when every character is a letter.
pub open spec fn decode_spec(letters: Seq<char>) -> Option<Seq<char>> {
    if all_letters(letters) {
        Some(letters.map_values(|c: char| hex_char(letter_val(c))))
    } else {
        None
    }
}

/// A value's letter reads back as the value.
pub proof fn lemma_letter_round_trip(v: int)
    requires
        0 <= v < 16,
    ensures
        letter_val(letter_of(v)) == v,
{
}

/// Spelling hex in letters and reading it back gives the hex, lowercased.
pub proof fn lemma_decode_encode(hex: Seq<char>)
    requires
        all_hex(hex),
    ensures
        decode_spec(encode_spec(hex)) == Some(hex.map_values(|c: char| hex_char(hex_val(c)))),
{
    let l = encode_spec(hex);
    assert forall|i: int| 0 <= i < l.len() implies letter_val(#[trigger] l[i]) >= 0 by {
        assert(hex_val(hex[i]) >= 0);
    }
    let d = decode_spec(l)->0;
    assert(d =~= hex.map_values(|c: char| hex_char(hex_val(c))));
}

/// The letter of a value below sixteen.
pub fn letter(v: u8) -> (c: char)
    requires
        v < 16,
    ensures
        c == letter_of(v as int),
{
    (122 - v) as char
}

/// The value of a letter, either case, or `None`.
pub fn letter_value(c: char) -> (r: Option<u8>)
    ensures
        letter_val(c) < 0 ==> r is None,
        letter_val(c) >= 0 ==> r == Some(letter_val(c) as u8),
{
    let n = c as u32;
    if 107 <= n && n <= 122 {
        Some((122 - n) as u8)
    } else if 75 <= n && n <= 90 {
        Some((90 - n) as u8)
    } else {
        None
    }
}

/// Spell a hex string in letters.
pub fn encode(hex: &str) -> (r: String)
    requires
        all_hex(hex@),
    ensures
        r@ == encode_spec(hex@),
{
    let h = crate::text::chars_of(hex);
    let mut out: Vec<char> = Vec::new();
    let mut i: usize = 0;
    while i < h.len()
        invariant
            h@ == hex@,
            all_hex(hex@),
            i <= h.len(),
            out@ == encode_spec(hex@).subrange(0, i as int),
        decreases h.len() - i,
    {
        let v = crate::hex::hex_value(h[i]);
        assert(hex_val(h@[i as int]) >= 0);
        out.push(letter(v.unwrap()));
        i += 1;
        assert(out@ =~= encode_spec(hex@).subrange(0, i as int));
    }
    assert(out@ =~= encode_spec(hex@));
    crate::text::string_of(&out)
}

/// Read a letters spelling back as lowercase hex; `None` when a character
/// is not one of the sixteen letters.
pub fn decode(letters: &str) -> (r: Option<String>)
    ensures
        r is Some <==> decode_spec(letters@) is Some,
        r matches Some(h) ==> h@ == decode_spec(letters@)->0,
{
    let l = crate::text::chars_of(letters);
    let mut out: Vec<char> = Vec::new();
    let mut i: usize = 0;
    while i < l.len()
        invariant
            l@ == letters@,
            i <= l.len(),
            forall|k: int| 0 <= k < i ==> letter_val(#[trigger] l@[k]) >= 0,
            out@ == l@.subrange(0, i as int).map_values(|c: char| hex_char(letter_val(c))),
        decreases l.len() - i,
    {
        match letter_value(l[i]) {
            Some(v) => {
                out.push(crate::hex::hex_digit(v));
            },
            None => {
                return None;
            },
        }
        i += 1;
        assert(out@ =~= l@.subrange(0, i as int).map_values(|c: char| hex_char(letter_val(c))));
    }
    assert(l@.subrange(0, l.len() as int) =~= l@);
    Some(crate::text::string_of(&out))
}

} // verus!
