//! The library's error: a repository that could not be found, an uncoded
//! failure, or a coded refusal with its stable id and the commands that lead
//! out of it.

use vstd::prelude::*;
use crate::text::{str_eq, str_starts_with};

verus! {

#[derive(Debug, Clone)]
pub enum Error {
    /// No repository at or above the directory asked about. The text is the
    /// discovery failure's own.
    Discover(String),
    Repo(String),
    Coded { id: String, message: String, exits: Vec<String> },
}

pub type Result<T> = core::result::Result<T, Error>;

/// The exit code for an error id: `ref/contended` exits 4, `usage/*` exits
/// 2, `held/*` exits 3, and everything else exits 1.
pub open spec fn exit_code_of(id: Seq<char>) -> i32 {
    if id == "ref/contended"@ {
        4
    } else if "usage/"@.is_prefix_of(id) {
        2
    } else if "held/"@.is_prefix_of(id) {
        3
    } else {
        1
    }
}

/// Messages joined by `": "`, the way an error and its sources read.
pub open spec fn joined(chain: Seq<Seq<char>>) -> Seq<char>
    decreases chain.len(),
{
    if chain.len() == 0 {
        Seq::empty()
    } else if chain.len() == 1 {
        chain[0]
    } else {
        joined(chain.drop_last()) + ": "@ + chain.last()
    }
}

impl Error {
    /// The stable identifier: `repo/not-found` for a failed discovery,
    /// `internal` for an uncoded error, the coded id otherwise.
    pub open spec fn id_spec(&self) -> Seq<char> {
        match self {
            Error::Discover(_) => "repo/not-found"@,
            Error::Repo(_) => "internal"@,
            Error::Coded { id, .. } => id@,
        }
    }

    /// What the error says.
    pub open spec fn text_spec(&self) -> Seq<char> {
        match self {
            Error::Discover(m) => "not a git repository (or any parent): "@ + m@,
            Error::Repo(m) => m@,
            Error::Coded { message, .. } => message@,
        }
    }

    /// An uncoded error whose text is an error's message followed by each
    /// of its sources', joined by `": "`: a whole source chain as one line.
    pub fn repo(chain: &Vec<String>) -> (e: Error)
        ensures
            e matches Error::Repo(m) && m@ == joined(chain@.map_values(|s: String| s@)),
    {
        let mut out: Vec<char> = Vec::new();
        let mut i: usize = 0;
        let ghost views = chain@.map_values(|s: String| s@);
        while i < chain.len()
            invariant
                i <= chain.len(),
                views == chain@.map_values(|s: String| s@),
                out@ == joined(views.subrange(0, i as int)),
            decreases chain.len() - i,
        {
            if i > 0 {
                crate::text::extend_chars(&mut out, ": ");
            }
            crate::text::extend_chars(&mut out, chain[i].as_str());
            proof {
                let pre = views.subrange(0, i + 1);
                assert(pre.drop_last() =~= views.subrange(0, i as int));
                if i == 0 {
                    assert(out@ =~= views[0]);
                }
            }
            i += 1;
        }
        assert(views.subrange(0, chain.len() as int) =~= views);
        Error::Repo(crate::text::string_of(&out))
    }

    /// An uncoded error carrying `m`.
    pub fn msg(m: &str) -> (e: Error)
        ensures
            e matches Error::Repo(t) && t@ == m@,
    {
        Error::Repo(crate::text::owned(m))
    }

    /// A coded refusal.
    pub fn coded(id: &str, message: &str, exits: Vec<String>) -> (e: Error)
        ensures
            e matches Error::Coded { id: i, message: m, exits: x } && i@ == id@ && m@ == message@
                && x == exits,
    {
        Error::Coded {
            id: crate::text::owned(id),
            message: crate::text::owned(message),
            exits,
        }
    }

    /// Stable identifier for this error. `"internal"` for uncoded variants.
    pub fn id(&self) -> (r: &str)
        ensures
            r@ == self.id_spec(),
    {
        match self {
            Error::Discover(_) => "repo/not-found",
            Error::Repo(_) => "internal",
            Error::Coded { id, .. } => id.as_str(),
        }
    }

    /// Suggested exit commands. Empty for uncoded variants.
    pub fn exits(&self) -> (r: Vec<String>)
        ensures
            self matches Error::Coded { exits, .. } ==> r@ == exits@,
            !(self is Coded) ==> r@.len() == 0,
    {
        match self {
            Error::Coded { exits, .. } => exits.clone(),
            _ => Vec::new(),
        }
    }

    /// The process exit code this error asks for: the coded id's, and 1 for
    /// an uncoded error.
    pub fn exit_code(&self) -> (r: i32)
        ensures
            self matches Error::Coded { id, .. } ==> r == exit_code_of(id@),
            !(self is Coded) ==> r == 1,
    {
        match self {
            Error::Coded { id, .. } => exit_code_for(id.as_str()),
            _ => 1,
        }
    }

    /// What the error says, as its display reads.
    pub fn text(&self) -> (r: String)
        ensures
            r@ == self.text_spec(),
    {
        match self {
            Error::Discover(m) => crate::text::concat(
                "not a git repository (or any parent): ",
                m.as_str(),
            ),
            Error::Repo(m) => m.clone(),
            Error::Coded { message, .. } => message.clone(),
        }
    }
}

/// The exit code for an error id. Four nonzero codes, one meaning each:
/// `usage/*` exits 2, the command line was wrong; `held/*` exits 3, nothing
/// was touched and a human decision is required; `ref/contended` exits 4,
/// nothing was touched and the same command run again is the whole answer;
/// everything else exits 1, a no.
pub fn exit_code_for(id: &str) -> (r: i32)
    ensures
        r == exit_code_of(id@),
{
    if str_eq(id, "ref/contended") {
        4
    } else if str_starts_with(id, "usage/") {
        2
    } else if str_starts_with(id, "held/") {
        3
    } else {
        1
    }
}

} // verus!
