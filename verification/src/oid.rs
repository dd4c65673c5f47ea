//! A git object id as the library holds it: twenty bytes, spelled as forty
//! lowercase hex digits.

use vstd::prelude::*;
use crate::hex::{all_hex, bytes_of_hex, hex_of};

verus! {

#[derive(Clone, Copy, PartialEq, Eq, Hash, Debug)]
pub struct Oid(pub [u8; 20]);

/// Bytes read one for one as the characters they encode.
pub open spec fn byte_chars(b: Seq<u8>) -> Seq<char> {
    b.map_values(|x: u8| x as char)
}

impl View for Oid {
    type V = Seq<u8>;

    open spec fn view(&self) -> Seq<u8> {
        self.0@
    }
}

impl Oid {
    /// Forty hex digits of either case as an id; `None` otherwise.
    pub fn from_hex(hex: &str) -> (r: Option<Oid>)
        ensures
            r is Some <==> (hex@.len() == 40 && all_hex(hex@)),
            r matches Some(o) ==> o@ == bytes_of_hex(hex@),
    {
        let h = crate::text::chars_of(hex);
        Self::from_digits(&h)
    }

    /// Forty hex digits given as bytes, each byte read as the character
    /// it encodes, as an id; `None` otherwise.
    pub fn from_hex_bytes(hex: &[u8]) -> (r: Option<Oid>)
        ensures
            r is Some <==> (hex@.len() == 40 && all_hex(byte_chars(hex@))),
            r matches Some(o) ==> o@ == bytes_of_hex(byte_chars(hex@)),
    {
        let mut h: Vec<char> = Vec::new();
        let mut i: usize = 0;
        while i < hex.len()
            invariant
                i <= hex@.len(),
                h@ == byte_chars(hex@.take(i as int)),
            decreases hex.len() - i,
        {
            h.push(hex[i] as char);
            i += 1;
            assert(h@ =~= byte_chars(hex@.take(i as int)));
        }
        assert(hex@.take(hex@.len() as int) =~= hex@);
        Self::from_digits(&h)
    }

    fn from_digits(h: &Vec<char>) -> (r: Option<Oid>)
        ensures
            r is Some <==> (h@.len() == 40 && all_hex(h@)),
            r matches Some(o) ==> o@ == bytes_of_hex(h@),
    {
        if h.len() != 40 {
            return None;
        }
        match crate::hex::from_hex_chars(h) {
            Some(b) => {
                let mut a = [0u8; 20];
                let mut i: usize = 0;
                while i < 20
                    invariant
                        b@.len() == 20,
                        i <= 20,
                        forall|k: int| 0 <= k < i ==> a@[k] == b@[k],
                    decreases 20 - i,
                {
                    a[i] = b[i];
                    i += 1;
                }
                assert(a@ =~= b@);
                Some(Oid(a))
            },
            None => None,
        }
    }

    /// Whether two ids are the same twenty bytes.
    pub fn same(&self, other: &Oid) -> (r: bool)
        ensures
            r == (self@ == other@),
    {
        let mut i: usize = 0;
        while i < 20
            invariant
                i <= 20,
                self@.len() == 20,
                other@.len() == 20,
                forall|k: int| 0 <= k < i ==> self@[k] == other@[k],
            decreases 20 - i,
        {
            if self.0[i] != other.0[i] {
                return false;
            }
            i += 1;
        }
        assert(self@ =~= other@);
        true
    }

    /// Whether this id's bytes sort before `other`'s, which is the order
    /// of their hex spellings too.
    pub fn lt(&self, other: &Oid) -> (r: bool)
        ensures
            r == crate::bytes::bytes_lt(self@, other@),
    {
        let a = crate::bytes::slice_array(&self.0);
        let b = crate::bytes::slice_array(&other.0);
        crate::bytes::lt(&a, &b)
    }

    /// The forty lowercase hex digits.
    pub fn to_hex(&self) -> (s: String)
        ensures
            s@ == hex_of(self@),
    {
        crate::hex::to_hex(self.0.as_slice())
    }
}

} // verus!
