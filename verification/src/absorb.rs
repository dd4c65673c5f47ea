//! One move, two spellings: `ff absorb` and `ff lift` take content out of a
//! run of commits and land it in one commit. The word a move was typed in
//! is its defaults, and the words its reports use.

use vstd::prelude::*;
use crate::model::HeldReport;
use crate::error::Error;
use crate::fold::refusal;
use crate::hex::{all_hex, bytes_of_hex, hex_of};
use crate::oid::Oid;
use crate::text::string_views;

verus! {

/// The spelling a move was typed in. Absorb moves from the open change into
/// the commit under the sources, lift from the commit under the open change
/// into the open change.
#[derive(Debug, Clone, Copy, PartialEq, Eq, Structural)]
pub enum MoveVerb {
    Absorb,
    Lift,
}

/// The verb as typed.
pub open spec fn verb_word(verb: MoveVerb) -> Seq<char> {
    match verb {
        MoveVerb::Absorb => "absorb"@,
        MoveVerb::Lift => "lift"@,
    }
}

/// The verb with its preposition.
pub open spec fn verb_noun(verb: MoveVerb) -> Seq<char> {
    match verb {
        MoveVerb::Absorb => "absorb into"@,
        MoveVerb::Lift => "lift from"@,
    }
}

/// The verb's past participle.
pub open spec fn verb_past(verb: MoveVerb) -> Seq<char> {
    match verb {
        MoveVerb::Absorb => "absorbed"@,
        MoveVerb::Lift => "lifted"@,
    }
}

impl MoveVerb {
    /// `absorb` or `lift`.
    pub fn as_str(self) -> (r: &'static str)
        ensures
            r@ == verb_word(self),
    {
        match self {
            MoveVerb::Absorb => "absorb",
            MoveVerb::Lift => "lift",
        }
    }

    /// The verb with its preposition, for "there is nothing to ___".
    pub fn noun(self) -> (r: &'static str)
        ensures
            r@ == verb_noun(self),
    {
        match self {
            MoveVerb::Absorb => "absorb into",
            MoveVerb::Lift => "lift from",
        }
    }

    /// The past participle, for "nothing was ___".
    pub fn past(self) -> (r: &'static str)
        ensures
            r@ == verb_past(self),
    {
        match self {
            MoveVerb::Absorb => "absorbed",
            MoveVerb::Lift => "lifted",
        }
    }
}

/// How a move ended when it did not land: the replay held, or there was
/// nothing to move.
#[derive(Debug, Clone)]
pub enum MoveOutcome {
    /// The replay conflicts: nothing was written and the rewrite waits.
    Held(HeldReport),
    /// The sources held nothing the path filter selected.
    Nothing { verb: String, branch: String },
}

/// The outcome of a move that found nothing to move on `branch`.
pub fn nothing_to_move(verb: MoveVerb, branch: &str) -> (r: MoveOutcome)
    ensures
        r matches MoveOutcome::Nothing { verb: v, branch: b } && v@ == verb_word(verb) && b@
            == branch@,
{
    MoveOutcome::Nothing {
        verb: crate::text::owned(verb.as_str()),
        branch: crate::text::owned(branch),
    }
}


/// One end of a move, placed on the branch's first-parent line: its depth
/// below the tip (the tip at 0, the open change at -1) and, for a commit,
/// its short id. Two ends at one depth are one end: the line holds one
/// commit per depth.
#[derive(Debug, Clone)]
pub struct MoveEnd {
    pub depth: i64,
    pub short: String,
}

/// One end of a move, as the caller resolved it: the open change, or a
/// commit.
#[derive(Debug, Clone, Copy)]
pub enum Endpoint {
    Open,
    Commit(Oid),
}

/// The spelling a hold records: `@`, or the full sha.
pub open spec fn spelled(e: Endpoint) -> Seq<char> {
    match e {
        Endpoint::Open => "@"@,
        Endpoint::Commit(id) => hex_of(id@),
    }
}

/// What gix says of text that is not an object id.
pub uninterp spec fn gix_hex_error(text: Seq<char>) -> Seq<char>;

/// The error `gix::ObjectId::from_hex` returns for text that is not forty
/// hex digits, as text. That it is gix's words is all that is claimed.
#[verifier::external_body]
fn hex_error(text: &str) -> (m: String)
    requires
        !(text@.len() == 40 && all_hex(text@)),
    ensures
        m@ == gix_hex_error(text@),
{
    match gix::ObjectId::from_hex(text.as_bytes()) {
        Ok(_) => String::new(),
        Err(e) => e.to_string(),
    }
}

impl Endpoint {
    /// The spelling a hold records: `@`, or the full sha.
    pub fn spell(self) -> (r: String)
        ensures
            r@ == spelled(self),
    {
        match self {
            Endpoint::Open => crate::text::owned("@"),
            Endpoint::Commit(id) => id.to_hex(),
        }
    }

    /// The inverse of `spell`: `@`, or forty hex digits of either case;
    /// anything else fails with gix's words for it.
    pub fn parse(text: &str) -> (r: Result<Endpoint, Error>)
        ensures
            text@ == "@"@ ==> r matches Ok(Endpoint::Open),
            text@ != "@"@ && text@.len() == 40 && all_hex(text@) ==> (r matches Ok(Endpoint::Commit(id))
                && id@ == bytes_of_hex(text@)),
            text@ != "@"@ && !(text@.len() == 40 && all_hex(text@)) ==> (r matches Err(Error::Repo(m))
                && m@ == gix_hex_error(text@)),
    {
        if crate::text::str_eq(text, "@") {
            return Ok(Endpoint::Open);
        }
        match Oid::from_hex(text) {
            Some(id) => Ok(Endpoint::Commit(id)),
            None => Err(Error::msg(hex_error(text).as_str())),
        }
    }
}

/// Reading a spelled end back gives the end: `parse` inverts `spell`.
pub proof fn lemma_endpoint_round_trip(e: Endpoint)
    ensures
        match e {
            Endpoint::Open => spelled(e) == "@"@,
            Endpoint::Commit(id) => spelled(e) != "@"@ && spelled(e).len() == 40 && all_hex(spelled(e))
                && bytes_of_hex(spelled(e)) == id@,
        },
{
    reveal_strlit("@");
    if let Endpoint::Commit(id) = e {
        crate::hex::lemma_hex_round_trip(id@);
        assert(spelled(e).len() != "@"@.len());
    }
}

/// What a move was asked to do.
#[derive(Debug, Clone)]
pub struct MoveOptions {
    pub verb: MoveVerb,
    /// `--from`. `None` is the verb's default: absorb the open change, lift
    /// the commit under it.
    pub from: Option<Vec<Endpoint>>,
    /// `--into`. `None` is the verb's default: absorb the commit under the
    /// lowest source, lift the open change.
    pub into: Option<Endpoint>,
    /// The path filter; empty moves whole commits.
    pub paths: Vec<String>,
    /// `-m`: the target's message, a reword for a closed commit and the
    /// pending description for the open change.
    pub message: Option<String>,
    pub verify: crate::hooks::Verify,
    pub now: Option<i64>,
    pub argv: Vec<String>,
}

/// The sources a move takes: `--from` when given, else the verb's default,
/// the open change for an absorb and the commit under it (`tip`) for a lift.
pub fn default_sources(verb: MoveVerb, from: Option<Vec<Endpoint>>, tip: Oid) -> (r: Vec<Endpoint>)
    ensures
        match from {
            Some(f) => r@ == f@,
            None => if verb == MoveVerb::Absorb {
                r@ == seq![Endpoint::Open]
            } else {
                r@ == seq![Endpoint::Commit(tip)]
            },
        },
{
    match from {
        Some(f) => f,
        None => {
            let mut v: Vec<Endpoint> = Vec::new();
            match verb {
                MoveVerb::Absorb => v.push(Endpoint::Open),
                MoveVerb::Lift => v.push(Endpoint::Commit(tip)),
            }
            proof {
                if verb == MoveVerb::Absorb {
                    assert(v@ =~= seq![Endpoint::Open]);
                } else {
                    assert(v@ =~= seq![Endpoint::Commit(tip)]);
                }
            }
            v
        },
    }
}

/// Whether an end is the open change.
pub open spec fn is_open(e: MoveEnd) -> bool {
    e.depth == -1
}

/// How an end reads in a report: the open change, or the commit's short
/// id.
pub open spec fn end_text(e: MoveEnd) -> Seq<char> {
    if is_open(e) { "the open change"@ } else { e.short@ }
}

/// How an end reads in a revset: `@`, or the commit's short id.
pub open spec fn end_rev(e: MoveEnd) -> Seq<char> {
    if is_open(e) { "@"@ } else { e.short@ }
}

/// The depths of a list of ends.
pub open spec fn depths_of(s: Seq<MoveEnd>) -> Seq<i64> {
    s.map_values(|e: MoveEnd| e.depth)
}

/// The sources deepest first, the target dropped from them and each end
/// named once.
pub open spec fn arranged(from: Seq<MoveEnd>, into: i64, r: Seq<MoveEnd>) -> bool {
    &&& forall|i: int, j: int| 0 <= i < j < r.len() ==> r[i].depth > r[j].depth
    &&& forall|d: i64| #[trigger] depths_of(r).contains(d) <==> (d != into && depths_of(from).contains(d))
    &&& forall|k: int| 0 <= k < r.len() ==> #[trigger] from.contains(r[k])
}

fn end_text_of(e: &MoveEnd) -> (r: String)
    ensures
        r@ == end_text(*e),
{
    if e.depth == -1 {
        crate::text::owned("the open change")
    } else {
        e.short.clone()
    }
}

fn end_rev_of(e: &MoveEnd) -> (r: String)
    ensures
        r@ == end_rev(*e),
{
    if e.depth == -1 {
        crate::text::owned("@")
    } else {
        e.short.clone()
    }
}

/// The sources of a move as its run: deepest first, the target dropped,
/// each end once.
pub fn arrange_sources(from: Vec<MoveEnd>, into: i64) -> (r: Vec<MoveEnd>)
    ensures
        arranged(from@, into, r@),
{
    let ghost f0 = from@;
    let count: usize = from.len();
    let mut rest = from;
    let mut out: Vec<MoveEnd> = Vec::new();
    let mut k: usize = 0;
    while rest.len() > 0
        invariant
            k <= f0.len(),
            f0.len() == count,
            rest@ == f0.skip(k as int),
            forall|i: int, j: int| 0 <= i < j < out@.len() ==> out@[i].depth > out@[j].depth,
            forall|d: i64| #[trigger] depths_of(out@).contains(d) <==> (d != into && depths_of(f0.take(k as int)).contains(d)),
            forall|q: int| 0 <= q < out@.len() ==> #[trigger] f0.contains(out@[q]),
        decreases rest.len(),
    {
        proof {
            assert(k < f0.len());
            assert(f0.skip(k as int)[0] == f0[k as int]);
        }
        let x = rest.remove(0);
        let ghost t0 = depths_of(f0.take(k as int));
        let ghost t1 = depths_of(f0.take(k + 1));
        proof {
            assert(rest@ =~= f0.skip(k + 1));
            assert(t1 =~= t0.push(x.depth));
        }
        let ghost before = out@;
        if x.depth != into {
            let mut p: usize = 0;
            while p < out.len() && out[p].depth > x.depth
                invariant
                    p <= out@.len(),
                    forall|q: int| 0 <= q < p ==> out@[q].depth > x.depth,
                decreases out.len() - p,
            {
                p += 1;
            }
            let dup = p < out.len() && out[p].depth == x.depth;
            if !dup {
                out.insert(p, x);
                proof {
                    assert(depths_of(out@) =~= depths_of(before).insert(p as int, x.depth));
                    assert forall|i: int, j: int| 0 <= i < j < out@.len() implies out@[i].depth > out@[j].depth by {
                        if j < p {
                            assert(out@[i] == before[i] && out@[j] == before[j]);
                        } else if j == p {
                            assert(out@[i] == before[i]);
                        } else if i < p {
                            assert(out@[i] == before[i] && out@[j] == before[j - 1]);
                            assert(before[p as int].depth < x.depth);
                        } else if i == p {
                            assert(out@[j] == before[j - 1]);
                            assert(before[p as int].depth < x.depth);
                        } else {
                            assert(out@[i] == before[i - 1] && out@[j] == before[j - 1]);
                        }
                    }
                    assert forall|d: i64| #[trigger] depths_of(out@).contains(d) <==> (d != into && t1.contains(d)) by {
                        if depths_of(out@).contains(d) {
                            let q = choose|q: int| 0 <= q < depths_of(out@).len() && depths_of(out@)[q] == d;
                            if q < p {
                                assert(depths_of(before)[q] == d);
                                assert(depths_of(before).contains(d));
                            } else if q > p {
                                assert(depths_of(before)[q - 1] == d);
                                assert(depths_of(before).contains(d));
                            }
                            assert(t1.contains(d)) by {
                                if d == x.depth {
                                    assert(t1[k as int] == d);
                                } else {
                                    let t = choose|t: int| 0 <= t < t0.len() && t0[t] == d;
                                    assert(t1[t] == d);
                                }
                            }
                        }
                        if d != into && t1.contains(d) {
                            let t = choose|t: int| 0 <= t < t1.len() && t1[t] == d;
                            if t < k {
                                assert(t0[t] == d);
                                assert(t0.contains(d));
                                assert(depths_of(before).contains(d));
                                let q = choose|q: int| 0 <= q < depths_of(before).len() && depths_of(before)[q] == d;
                                if q < p {
                                    assert(depths_of(out@)[q] == d);
                                } else {
                                    assert(depths_of(out@)[q + 1] == d);
                                }
                            } else {
                                assert(depths_of(out@)[p as int] == d);
                            }
                        }
                    }
                    assert forall|q: int| 0 <= q < out@.len() implies #[trigger] f0.contains(out@[q]) by {
                        if q < p {
                            assert(out@[q] == before[q]);
                        } else if q > p {
                            assert(out@[q] == before[q - 1]);
                        } else {
                            assert(f0[k as int] == x);
                        }
                    }
                }
            } else {
                proof {
                    assert(depths_of(before)[p as int] == x.depth);
                    assert forall|d: i64| #[trigger] depths_of(out@).contains(d) <==> (d != into && t1.contains(d)) by {
                        if depths_of(out@).contains(d) {
                            let t = choose|t: int| 0 <= t < t0.len() && t0[t] == d;
                            assert(t1[t] == d);
                        }
                        if d != into && t1.contains(d) {
                            let t = choose|t: int| 0 <= t < t1.len() && t1[t] == d;
                            if t < k {
                                assert(t0[t] == d);
                                assert(t0.contains(d));
                            } else {
                                assert(depths_of(out@)[p as int] == d);
                            }
                        }
                    }
                }
            }
        } else {
            proof {
                assert forall|d: i64| #[trigger] depths_of(out@).contains(d) <==> (d != into && t1.contains(d)) by {
                    if depths_of(out@).contains(d) {
                        let t = choose|t: int| 0 <= t < t0.len() && t0[t] == d;
                        assert(t1[t] == d);
                    }
                    if d != into && t1.contains(d) {
                        let t = choose|t: int| 0 <= t < t1.len() && t1[t] == d;
                        assert(t < k);
                        assert(t0[t] == d);
                        assert(t0.contains(d));
                    }
                }
            }
        }
        k += 1;
    }
    proof {
        assert(f0.take(f0.len() as int) =~= f0);
    }
    out
}

/// Whether a run, deepest first, skips a commit: each step down is one
/// commit, or two with the target standing in the gap.
pub open spec fn has_gap(d: Seq<i64>, target: i64) -> bool {
    exists|i: int| 0 <= i < d.len() - 1 && !#[trigger] adjacent_ok(d, i, target)
}

/// One step down a run, from position `i` to the next, skips nothing: one
/// commit, or two with the target in between.
pub open spec fn adjacent_ok(d: Seq<i64>, i: int, target: i64) -> bool {
    d[i] - d[i + 1] == 1 || (d[i] - d[i + 1] == 2 && d[i] - 1 == target)
}

/// The refusals a run's shape earns: nothing left to move once the target
/// is dropped from the sources, or sources that are not one run of
/// commits. `None` when the run is good.
pub fn run_refusal(verb: MoveVerb, sources: &Vec<MoveEnd>, into: &MoveEnd) -> (r: Option<Error>)
    ensures
        sources@.len() == 0 ==> (r matches Some(e) && refusal(
            e,
            "usage/move-into-self"@,
            end_text(*into) + " is the only source and the target: there is nothing to move"@,
            seq![
                if verb == MoveVerb::Absorb { "ff absorb --from <revset> --into <rev>"@ } else { "ff lift --from <revset> --into <rev>"@ },
                "ff log"@,
            ],
        )),
        sources@.len() > 0 && has_gap(depths_of(sources@), into.depth) ==> (r matches Some(e) && refusal(
            e,
            "usage/move-gap"@,
            "the sources are not one run of commits: "@ + end_text(sources@[0]) + " and "@
                + end_rev(sources@.last()) + " have commits between them that were not named"@,
            seq!["ff "@ + verb_word(verb) + " --from "@ + end_text(sources@[0]) + "~.."@ + end_rev(sources@.last())],
        )),
        sources@.len() > 0 && !has_gap(depths_of(sources@), into.depth) ==> r is None,
{
    if sources.len() == 0 {
        let t = end_text_of(into);
        let m = crate::text::concat(t.as_str(), " is the only source and the target: there is nothing to move");
        let mut v: Vec<String> = Vec::new();
        match verb {
            MoveVerb::Absorb => v.push(crate::text::owned("ff absorb --from <revset> --into <rev>")),
            MoveVerb::Lift => v.push(crate::text::owned("ff lift --from <revset> --into <rev>")),
        }
        v.push(crate::text::owned("ff log"));
        proof {
            assert(string_views(v@) =~= seq![
                if verb == MoveVerb::Absorb { "ff absorb --from <revset> --into <rev>"@ } else { "ff lift --from <revset> --into <rev>"@ },
                "ff log"@,
            ]);
        }
        return Some(Error::coded("usage/move-into-self", m.as_str(), v));
    }
    let mut i: usize = 0;
    let mut gap = false;
    let ghost d = depths_of(sources@);
    while i + 1 < sources.len()
        invariant
            i + 1 <= sources@.len(),
            d == depths_of(sources@),
            gap == exists|j: int| 0 <= j < i && !#[trigger] adjacent_ok(d, j, into.depth),
        decreases sources.len() - i,
    {
        let deeper = sources[i].depth as i128;
        let shallower = sources[i + 1].depth as i128;
        let step = deeper - shallower;
        let ok = step == 1 || (step == 2 && deeper - 1 == into.depth as i128);
        proof {
            assert(d[i as int] == sources@[i as int].depth && d[i + 1] == sources@[i + 1].depth);
            assert(ok == adjacent_ok(d, i as int, into.depth));
        }
        if !ok {
            gap = true;
        }
        i += 1;
    }
    proof {
        assert(gap == has_gap(d, into.depth));
    }
    if !gap {
        return None;
    }
    let lo = end_text_of(&sources[0]);
    let hi = end_rev_of(&sources[sources.len() - 1]);
    let a = crate::text::concat("the sources are not one run of commits: ", lo.as_str());
    let b = crate::text::concat(a.as_str(), " and ");
    let c = crate::text::concat(b.as_str(), hi.as_str());
    let m = crate::text::concat(c.as_str(), " have commits between them that were not named");
    let x = crate::text::concat("ff ", verb.as_str());
    let y = crate::text::concat(x.as_str(), " --from ");
    let z = crate::text::concat(y.as_str(), lo.as_str());
    let w = crate::text::concat(z.as_str(), "~..");
    let hint = crate::text::concat(w.as_str(), hi.as_str());
    let mut v: Vec<String> = Vec::new();
    v.push(hint);
    proof {
        assert(string_views(v@) =~= seq!["ff "@ + verb_word(verb) + " --from "@ + end_text(sources@[0]) + "~.."@ + end_rev(sources@.last())]);
    }
    Some(Error::coded("usage/move-gap", m.as_str(), v))
}

/// How the sources read in a report: one commit, a range of two, the open
/// change, or a range and the open change.
pub open spec fn spelled_from(sources: Seq<MoveEnd>) -> Seq<char> {
    let closed = sources.filter(|e: MoveEnd| !is_open(e));
    let run = if closed.len() == 0 {
        Seq::<char>::empty()
    } else if closed[0].depth == closed.last().depth {
        closed[0].short@
    } else {
        closed[0].short@ + ".."@ + closed.last().short@
    };
    if run.len() == 0 {
        "the open change"@
    } else if exists|i: int| 0 <= i < sources.len() && is_open(sources[i]) {
        run + " and the open change"@
    } else {
        run
    }
}

/// The sources as a report spells them.
pub fn spell_from(sources: &Vec<MoveEnd>) -> (r: String)
    ensures
        r@ == spelled_from(sources@),
{
    let mut closed: Vec<MoveEnd> = Vec::new();
    let mut open = false;
    let mut k: usize = 0;
    while k < sources.len()
        invariant
            k <= sources@.len(),
            closed@ == sources@.take(k as int).filter(|e: MoveEnd| !is_open(e)),
            open == exists|i: int| 0 <= i < k && is_open(sources@[i]),
        decreases sources.len() - k,
    {
        proof {
            assert(sources@.take(k + 1) =~= sources@.take(k as int).push(sources@[k as int]));
            sources@.take(k as int).lemma_filter_push(sources@[k as int], |e: MoveEnd| !is_open(e));
        }
        if sources[k].depth == -1 {
            open = true;
        } else {
            closed.push(MoveEnd { depth: sources[k].depth, short: sources[k].short.clone() });
        }
        k += 1;
    }
    proof {
        assert(sources@.take(sources@.len() as int) =~= sources@);
    }
    let run = if closed.len() == 0 {
        crate::text::owned("")
    } else if closed[0].depth == closed[closed.len() - 1].depth {
        closed[0].short.clone()
    } else {
        let a = crate::text::concat(closed[0].short.as_str(), "..");
        crate::text::concat(a.as_str(), closed[closed.len() - 1].short.as_str())
    };
    proof {
        reveal_strlit("");
    }
    if run.unicode_len() == 0 {
        crate::text::owned("the open change")
    } else if open {
        crate::text::concat(run.as_str(), " and the open change")
    } else {
        run
    }
}

/// `from <sources> into <target>`, the body of every line that names the
/// move.
pub fn describe_move(sources: &Vec<MoveEnd>, into: &MoveEnd) -> (r: String)
    ensures
        r@ == "from "@ + spelled_from(sources@) + " into "@ + end_text(*into),
{
    let f = spell_from(sources);
    let a = crate::text::concat("from ", f.as_str());
    let b = crate::text::concat(a.as_str(), " into ");
    let t = end_text_of(into);
    crate::text::concat(b.as_str(), t.as_str())
}

/// Where the target stands against the run, which is what shapes the
/// rewrite.
#[derive(Debug, Clone, Copy, PartialEq, Eq)]
pub enum MoveShape {
    /// Below the sources: it takes them folded in, and is the bottom.
    Below,
    /// Above or inside the run: the lowest source is the bottom, and the
    /// target is step `k` of the chain above it.
    Above { k: u64 },
    /// The open change gains what moved.
    Open,
}

/// The shape of a move over a run, deepest first and never empty.
pub fn move_shape(sources: &Vec<MoveEnd>, into: &MoveEnd) -> (r: MoveShape)
    requires
        sources@.len() > 0,
    ensures
        is_open(*into) ==> r == MoveShape::Open,
        !is_open(*into) && into.depth > sources@[0].depth ==> r == MoveShape::Below,
        !is_open(*into) && into.depth <= sources@[0].depth ==> r == (MoveShape::Above {
            k: (sources@[0].depth - into.depth + 1) as u64,
        }),
{
    if into.depth == -1 {
        MoveShape::Open
    } else if into.depth > sources[0].depth {
        MoveShape::Below
    } else {
        let k = (sources[0].depth as i128 - into.depth as i128 + 1) as u64;
        MoveShape::Above { k }
    }
}


/// The bare words aimed at the open change from the open change: absorb
/// with no sources named is already where the changes are, lift with no
/// target named has nothing committed to take, and any other such move is
/// the generic refusal. `None` unless both ends are the open change alone.
pub fn open_to_open_refusal(verb: MoveVerb, from_named: bool, into_named: bool, open_to_open: bool) -> (r: Option<Error>)
    ensures
        r is Some <==> open_to_open,
        r matches Some(e) ==> if verb == MoveVerb::Absorb && !from_named {
            refusal(
                e,
                "usage/absorb-into-open"@,
                "the open change is already where your changes are: name a commit that has closed"@,
                seq!["ff absorb"@, "ff commit -m <msg>"@],
            )
        } else if verb == MoveVerb::Lift && !into_named {
            refusal(
                e,
                "usage/lift-from-open"@,
                "the open change has nothing committed to lift out of: name a commit that has closed"@,
                seq!["ff lift"@, "ff log"@],
            )
        } else {
            refusal(
                e,
                "usage/move-into-self"@,
                "the open change is the only source and the target: there is nothing to move"@,
                seq![
                    if verb == MoveVerb::Absorb { "ff absorb --from <revset> --into <rev>"@ } else { "ff lift --from <revset> --into <rev>"@ },
                    "ff log"@,
                ],
            )
        },
{
    if !open_to_open {
        return None;
    }
    let mut v: Vec<String> = Vec::new();
    if verb == MoveVerb::Absorb && !from_named {
        v.push(crate::text::owned("ff absorb"));
        v.push(crate::text::owned("ff commit -m <msg>"));
        proof {
            assert(string_views(v@) =~= seq!["ff absorb"@, "ff commit -m <msg>"@]);
        }
        return Some(Error::coded(
            "usage/absorb-into-open",
            "the open change is already where your changes are: name a commit that has closed",
            v,
        ));
    }
    if verb == MoveVerb::Lift && !into_named {
        v.push(crate::text::owned("ff lift"));
        v.push(crate::text::owned("ff log"));
        proof {
            assert(string_views(v@) =~= seq!["ff lift"@, "ff log"@]);
        }
        return Some(Error::coded(
            "usage/lift-from-open",
            "the open change has nothing committed to lift out of: name a commit that has closed",
            v,
        ));
    }
    match verb {
        MoveVerb::Absorb => v.push(crate::text::owned("ff absorb --from <revset> --into <rev>")),
        MoveVerb::Lift => v.push(crate::text::owned("ff lift --from <revset> --into <rev>")),
    }
    v.push(crate::text::owned("ff log"));
    proof {
        assert(string_views(v@) =~= seq![
            if verb == MoveVerb::Absorb { "ff absorb --from <revset> --into <rev>"@ } else { "ff lift --from <revset> --into <rev>"@ },
            "ff log"@,
        ]);
    }
    Some(Error::coded(
        "usage/move-into-self",
        "the open change is the only source and the target: there is nothing to move",
        v,
    ))
}

/// A default target on trunk is refused: the commit under the sources
/// (`target_short`) is trunk's, and rewriting trunk is not what a bare word
/// does. The way out names the target.
pub fn into_trunk_refusal(sources: &Vec<MoveEnd>, target_short: &str, trunk: &str) -> (e: Error)
    requires
        sources@.len() > 0,
    ensures
        refusal(
            e,
            "absorb/into-trunk"@,
            "the commit under "@ + end_text(sources@[0]) + " is "@ + target_short@ + ", on "@ + trunk@
                + ": name the commit to move into"@,
            seq![
                if sources@.len() == 1 {
                    "ff absorb --into "@ + end_text(sources@[0])
                } else {
                    "ff absorb --from "@ + end_text(sources@[0]) + ".."@ + end_rev(sources@.last()) + " --into "@
                        + end_text(sources@[0])
                },
                "ff log"@,
            ],
        ),
{
    let lo = end_text_of(&sources[0]);
    let exit = if sources.len() == 1 {
        crate::text::concat("ff absorb --into ", lo.as_str())
    } else {
        let hi = end_rev_of(&sources[sources.len() - 1]);
        let a = crate::text::concat("ff absorb --from ", lo.as_str());
        let b = crate::text::concat(a.as_str(), "..");
        let c = crate::text::concat(b.as_str(), hi.as_str());
        let d = crate::text::concat(c.as_str(), " --into ");
        crate::text::concat(d.as_str(), lo.as_str())
    };
    let a = crate::text::concat("the commit under ", lo.as_str());
    let b = crate::text::concat(a.as_str(), " is ");
    let c = crate::text::concat(b.as_str(), target_short);
    let d = crate::text::concat(c.as_str(), ", on ");
    let f = crate::text::concat(d.as_str(), trunk);
    let m = crate::text::concat(f.as_str(), ": name the commit to move into");
    let ghost exit_view = exit@;
    let mut v: Vec<String> = Vec::new();
    v.push(exit);
    v.push(crate::text::owned("ff log"));
    proof {
        assert(string_views(v@) =~= seq![exit_view, "ff log"@]);
        assert(m@ =~= "the commit under "@ + end_text(sources@[0]) + " is "@ + target_short@ + ", on "@ + trunk@
            + ": name the commit to move into"@);
        if sources@.len() != 1 {
            assert(exit_view =~= "ff absorb --from "@ + end_text(sources@[0]) + ".."@ + end_rev(sources@.last())
                + " --into "@ + end_text(sources@[0]));
        }
    }
    Error::coded("absorb/into-trunk", m.as_str(), v)
}

/// What `-m` becomes on a move: for a closed target, its new message (the
/// text after the hooks ran over it, cleaned up), which may not be empty,
/// and the subject it lands with; for the open change, the pending
/// description, without trailing whitespace and none when that leaves
/// nothing.
pub fn move_reword(verb: MoveVerb, into_open: bool, text: &str) -> (r: Result<(Option<String>, Option<String>), Error>)
    ensures
        into_open ==> (r matches Ok(p) && p.0 is None && crate::text::opt_view(p.1) == crate::describe::kept_text(Some(text@))),
        !into_open && crate::close::normalized(text@).len() == 0 ==> (r matches Err(e) && refusal(
            e,
            "usage/needs-message"@,
            "the commit-msg hook left the description empty; a reworded commit needs one"@,
            seq![if verb == MoveVerb::Absorb { "ff absorb -m <msg>"@ } else { "ff lift -m <msg>"@ }],
        )),
        !into_open && crate::close::normalized(text@).len() > 0 ==> (r matches Ok(p) && (p.0 matches Some(m)
            && m@ == crate::close::normalized(text@)) && p.1 is None),
{
    if into_open {
        return Ok((None, crate::describe::pending_text(Some(crate::text::owned(text)))));
    }
    let n = crate::close::normalize_message(text);
    if n.unicode_len() == 0 {
        let mut v: Vec<String> = Vec::new();
        match verb {
            MoveVerb::Absorb => v.push(crate::text::owned("ff absorb -m <msg>")),
            MoveVerb::Lift => v.push(crate::text::owned("ff lift -m <msg>")),
        }
        proof {
            assert(string_views(v@) =~= seq![if verb == MoveVerb::Absorb { "ff absorb -m <msg>"@ } else { "ff lift -m <msg>"@ }]);
        }
        return Err(Error::coded(
            "usage/needs-message",
            "the commit-msg hook left the description empty; a reworded commit needs one",
            v,
        ));
    }
    Ok((Some(n), None))
}

/// Where a move's folds hold, before any replay: the bottom fold's
/// conflicts hold at the open change when it is among the sources and at
/// the target otherwise; failing those, the fold above the target holds at
/// the target. `None` when neither fold conflicts.
#[derive(Debug, Clone, Copy, PartialEq, Eq)]
pub enum FoldHold {
    OpenChange,
    Target,
}

/// The hold a move's folds call for, and its paths.
pub fn fold_hold(bottom: Vec<String>, above: Vec<String>, includes_open: bool) -> (r: Option<(FoldHold, Vec<String>)>)
    ensures
        bottom@.len() > 0 ==> r == Some((if includes_open { FoldHold::OpenChange } else { FoldHold::Target }, bottom)),
        bottom@.len() == 0 && above@.len() > 0 ==> r == Some((FoldHold::Target, above)),
        bottom@.len() == 0 && above@.len() == 0 ==> r is None,
{
    if bottom.len() > 0 {
        Some((if includes_open { FoldHold::OpenChange } else { FoldHold::Target }, bottom))
    } else if above.len() > 0 {
        Some((FoldHold::Target, above))
    } else {
        None
    }
}

/// The summary of the operation that records a move's hold.
pub fn move_hold_summary(verb: MoveVerb, sources: &Vec<MoveEnd>, into: &MoveEnd) -> (r: String)
    ensures
        r@ == "hold "@ + verb_word(verb) + " "@ + "from "@ + spelled_from(sources@) + " into "@ + end_text(*into),
{
    let a = crate::text::concat("hold ", verb.as_str());
    let b = crate::text::concat(a.as_str(), " ");
    let d = describe_move(sources, into);
    crate::text::concat(b.as_str(), d.as_str())
}

/// Which of the sources is the lowest: the deepest, the open change
/// counting as depth -1, the last of equals. `--from` naming nothing is
/// refused.
pub fn lowest_source(from: &Vec<MoveEnd>) -> (r: Result<usize, Error>)
    ensures
        from@.len() == 0 ==> (r matches Err(e) && refusal(
            e,
            "usage/revset-empty-set"@,
            "--from names no revision"@,
            seq!["ff log"@],
        )),
        from@.len() > 0 ==> (r matches Ok(i) && i < from@.len()
            && (forall|k: int| 0 <= k < from@.len() ==> (#[trigger] from@[k]).depth <= from@[i as int].depth)
            && (forall|k: int| i < k < from@.len() ==> (#[trigger] from@[k]).depth < from@[i as int].depth)),
{
    if from.len() == 0 {
        let mut v: Vec<String> = Vec::new();
        v.push(crate::text::owned("ff log"));
        proof {
            assert(string_views(v@) =~= seq!["ff log"@]);
        }
        return Err(Error::coded("usage/revset-empty-set", "--from names no revision", v));
    }
    let mut best: usize = 0;
    let mut k: usize = 1;
    while k < from.len()
        invariant
            1 <= k <= from@.len(),
            best < k,
            forall|j: int| 0 <= j < k ==> (#[trigger] from@[j]).depth <= from@[best as int].depth,
            forall|j: int| best < j < k ==> (#[trigger] from@[j]).depth < from@[best as int].depth,
        decreases from.len() - k,
    {
        if from[k].depth >= from[best].depth {
            best = k;
        }
        k += 1;
    }
    Ok(best)
}

/// The refusal when the lowest source is the root commit (`short`): there
/// is no commit under it to default to.
pub fn root_refusal(verb: MoveVerb, short: &str) -> (e: Error)
    ensures
        refusal(
            e,
            "target/unresolvable"@,
            short@ + " is the root commit: there is nothing under it to "@ + verb_noun(verb),
            seq![if verb == MoveVerb::Absorb { "ff absorb --into <rev>"@ } else { "ff lift --into <rev>"@ }],
        ),
{
    let a = crate::text::concat(short, " is the root commit: there is nothing under it to ");
    let m = crate::text::concat(a.as_str(), verb.noun());
    let mut v: Vec<String> = Vec::new();
    match verb {
        MoveVerb::Absorb => v.push(crate::text::owned("ff absorb --into <rev>")),
        MoveVerb::Lift => v.push(crate::text::owned("ff lift --into <rev>")),
    }
    proof {
        assert(string_views(v@) =~= seq![if verb == MoveVerb::Absorb { "ff absorb --into <rev>"@ } else { "ff lift --into <rev>"@ }]);
    }
    Error::coded("target/unresolvable", m.as_str(), v)
}

/// The refusal of an end that is not on the branch's first-parent line
/// (`short`, against the tip `tip_short`): there is nothing to rewrite
/// there.
pub fn not_in_history(short: &str, tip_short: &str) -> (e: Error)
    ensures
        refusal(
            e,
            "rewrite/not-in-history"@,
            short@ + " is not in the history of "@ + tip_short@ + ": there is nothing to rewrite there"@,
            seq!["ff log"@, "ff log -r <rev>"@],
        ),
{
    let a = crate::text::concat(short, " is not in the history of ");
    let b = crate::text::concat(a.as_str(), tip_short);
    let m = crate::text::concat(b.as_str(), ": there is nothing to rewrite there");
    let mut v: Vec<String> = Vec::new();
    v.push(crate::text::owned("ff log"));
    v.push(crate::text::owned("ff log -r <rev>"));
    proof {
        assert(string_views(v@) =~= seq!["ff log"@, "ff log -r <rev>"@]);
    }
    Error::coded("rewrite/not-in-history", m.as_str(), v)
}

} // verus!
