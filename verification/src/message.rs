//! One commit message, split the way git splits it: the subject every row
//! shows, and the body `ff show` prints under it. gix's split, so the
//! subject here is the subject everywhere.

use vstd::prelude::*;
use crate::text::trimmed_end;

verus! {

/// gix's summary of a message's title: the title delimited by the first
/// blank line, inner runs of whitespace folded into one space.
pub uninterp spec fn gix_summary(raw: Seq<u8>) -> Seq<char>;

/// `MessageRef::from_bytes(raw).summary()`, read as text. The summary is a
/// function of the message's bytes alone.
#[verifier::external_body]
fn message_summary(raw: &[u8]) -> (r: String)
    ensures
        r@ == gix_summary(raw@),
{
    gix::objs::commit::MessageRef::from_bytes(raw).summary().to_string()
}

/// How long the line ending at `i` is: two for `\r\n`, one for `\n`, none
/// otherwise.
pub open spec fn newline_len(s: Seq<u8>, i: int) -> int {
    if 0 <= i && i + 1 < s.len() && s[i] == 13u8 && s[i + 1] == 10u8 {
        2
    } else if 0 <= i && i < s.len() && s[i] == 10u8 {
        1
    } else {
        0
    }
}

/// Whether two line endings in a row start at `i`.
pub open spec fn blank_at(s: Seq<u8>, i: int) -> bool {
    newline_len(s, i) > 0 && newline_len(s, i + newline_len(s, i)) > 0
}

/// The body that the first blank line at or after `pos` opens: the bytes
/// after its two line endings, none when no such line comes or nothing
/// follows it.
pub open spec fn body_from(s: Seq<u8>, pos: int) -> Option<Seq<u8>>
    decreases s.len() - pos,
{
    if pos < 0 || pos >= s.len() {
        None
    } else if blank_at(s, pos) {
        let start = pos + newline_len(s, pos) + newline_len(s, pos + newline_len(s, pos));
        if start < s.len() {
            Some(s.subrange(start, s.len() as int))
        } else {
            None
        }
    } else {
        body_from(s, pos + 1)
    }
}

/// A message's body as bytes: what follows its first blank line (`\n` or
/// `\r\n` twice), if anything does.
pub open spec fn body_bytes(raw: Seq<u8>) -> Option<Seq<u8>> {
    body_from(raw, 0)
}

/// `MessageRef::from_bytes(raw).body`: gix splits the message at the first
/// pair of line endings, `\n` or `\r\n` each, and keeps what follows as the
/// body when it is not empty.
#[verifier::external_body]
fn message_body(raw: &[u8]) -> (r: Option<Vec<u8>>)
    ensures
        match r {
            Some(b) => body_bytes(raw@) == Some(b@),
            None => body_bytes(raw@) is None,
        },
{
    match gix::objs::commit::MessageRef::from_bytes(raw).body {
        Some(b) => Some(b.to_vec()),
        None => None,
    }
}

/// What `String::from_utf8_lossy` makes of some bytes.
pub uninterp spec fn lossy_text(b: Seq<u8>) -> Seq<char>;

/// `String::from_utf8_lossy`: the bytes read as text, each invalid sequence
/// replaced by U+FFFD; valid UTF-8 reads as what it encodes.
#[verifier::external_body]
fn lossy(b: &[u8]) -> (r: String)
    ensures
        r@ == lossy_text(b@),
        vstd::utf8::valid_utf8(b@) ==> r@ == vstd::utf8::decode_utf8(b@),
{
    String::from_utf8_lossy(b).into_owned()
}

/// The body as text, when there is one.
pub open spec fn body_text(raw: Seq<u8>) -> Option<Seq<char>> {
    match body_bytes(raw) {
        Some(b) => Some(lossy_text(b)),
        None => None,
    }
}

/// A message's two halves once gix has split it: the subject, and the body
/// with trailing whitespace trimmed, empty when there is none.
pub open spec fn halves(summary: Seq<char>, body: Option<Seq<char>>) -> (Seq<char>, Seq<char>) {
    (summary, match body {
        Some(b) => trimmed_end(b),
        None => Seq::empty(),
    })
}

/// The halves from what gix gave: the subject as it stands, the body with
/// its trailing whitespace trimmed.
pub fn halves_of(summary: String, body: Option<String>) -> (r: (String, String))
    ensures
        (r.0@, r.1@) == halves(summary@, crate::text::opt_view(body)),
{
    let b = match body {
        Some(b) => crate::text::string_of(&crate::text::trim_end_chars(&crate::text::chars_of(b.as_str()))),
        None => String::new(),
    };
    (summary, b)
}

/// A commit message as its two halves: the subject, git's summary of the
/// title, and the body after the first blank line with trailing whitespace
/// trimmed, empty when there is none.
pub fn split(raw: &[u8]) -> (r: (String, String))
    ensures
        (r.0@, r.1@) == halves(gix_summary(raw@), body_text(raw@)),
{
    let s = message_summary(raw);
    let b = match message_body(raw) {
        Some(bytes) => Some(lossy(bytes.as_slice())),
        None => None,
    };
    halves_of(s, b)
}

} // verus!
