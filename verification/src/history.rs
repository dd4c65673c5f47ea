//! `ff history`: the moves, not the operations. One row is one keystroke:
//! a run of captures is one row because it is one `ff undo`, and the redo
//! path sits above `@` because those are keystrokes too, in the other
//! direction.

use vstd::prelude::*;

verus! {

/// How a row is reached from where the repository stands now.
#[derive(Debug, Clone, Copy, PartialEq, Eq, Structural)]
pub enum Move {
    /// Where the log stands. Exactly one row is this one.
    Now,
    /// Reached by stepping back: `distance` presses of `ff undo`.
    Undo,
    /// Reached by stepping forward: `-distance` presses of `ff redo`.
    Redo,
}

impl Move {
    /// The word a row prints for its move.
    pub open spec fn word(self) -> Seq<char> {
        match self {
            Move::Now => "now"@,
            Move::Undo => "undo"@,
            Move::Redo => "redo"@,
        }
    }

    /// The word a row prints for its move: `now`, `undo` or `redo`.
    pub fn as_str(self) -> (r: &'static str)
        ensures
            r@ == self.word(),
    {
        match self {
            Move::Now => "now",
            Move::Undo => "undo",
            Move::Redo => "redo",
        }
    }
}

/// One row: one operation you can stand on, and how many keystrokes away.
#[derive(Debug, Clone)]
pub struct Step {
    /// The operation, spelled in letters like every other op address.
    pub id: String,
    /// The shortest prefix the `ff op` verbs resolve unambiguously.
    pub short_id: String,
    /// Which keystroke reaches it.
    pub landing: Move,
    /// The operation's own kind: `op`, `capture`, `foreign`, `note`.
    pub kind: String,
    pub summary: String,
    pub time: i64,
    pub branch: Option<String>,
    pub session: Option<String>,
    /// How many operations the step onto this row traversed: `1` is the
    /// ordinary answer and `0` is `@`, which is not stepped onto at all.
    pub collapsed: usize,
    /// Signed keystrokes from now: `0` is now, positive is presses of `ff
    /// undo`, negative is presses of `ff redo`.
    pub distance: i64,
}

/// How many letters a row shows of its id: the unique prefix the index
/// found, eight when it found none, and never fewer than four.
pub open spec fn shown_len(found: Option<nat>) -> nat {
    let n = match found {
        Some(n) => n,
        None => 8,
    };
    if n < 4 {
        4
    } else {
        n
    }
}

/// The id as a row shows it: its first `shown_len` letters, or all of it
/// when it is shorter.
pub fn abbreviate(id: &str, found: Option<usize>) -> (r: String)
    ensures
        r@ == id@.take(
            if shown_len(match found { Some(n) => Some(n as nat), None => None }) < id@.len() {
                shown_len(match found { Some(n) => Some(n as nat), None => None }) as int
            } else {
                id@.len() as int
            },
        ),
{
    let n: usize = match found {
        Some(n) => n,
        None => 8,
    };
    let len: usize = if n < 4 { 4 } else { n };
    let v = crate::text::chars_of(id);
    let end = if len < v.len() { len } else { v.len() };
    let s = crate::text::slice_chars(&v, 0, end);
    assert(s@ =~= id@.take(end as int));
    crate::text::string_of(&s)
}

} // verus!
