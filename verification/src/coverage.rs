//! How much of a corpus the semantic view can model: of the files a format
//! claims, how many parse, how many of those it can view, and, for the rest,
//! each reason it refused, how often, and the first file refused for it.
//! Reading the files and printing the shares is the caller's business.
use crate::cli::same_text;
use crate::cst::Cst;
use crate::format::Format;
use crate::ranking::{rank, ranked};
use crate::semantic::{SemanticNode, Unmodelled};
use vstd::prelude::*;

verus! {

/// What viewing one file came to.
#[derive(Debug, Clone, Copy, PartialEq, Eq)]
pub enum ViewOutcome {
    /// It did not parse: no view was tried.
    Unparsed,
    /// It parsed and the view modelled it.
    Modelled,
    /// It parsed and the view declined, for this reason.
    Refused(&'static str),
}

/// One format's tally over the files it claims.
#[derive(Debug)]
pub struct Coverage {
    /// Files counted.
    pub total: usize,
    /// Files that parsed and were modelled.
    pub modelled: usize,
    /// Files that did not parse.
    pub unparsed: usize,
    /// Each refusal reason, in the order first met: the reason, how many
    /// files it refused, and the first of them.
    pub reasons: Vec<(String, usize, String)>,
}

/// A reason row, viewed.
pub open spec fn reason_view(r: (String, usize, String)) -> (Seq<char>, nat, Seq<char>) {
    (r.0@, r.1 as nat, r.2@)
}

/// Reason rows, viewed.
pub open spec fn reasons_view(rs: Seq<(String, usize, String)>) -> Seq<(Seq<char>, nat, Seq<char>)> {
    Seq::new(rs.len(), |i: int| reason_view(rs[i]))
}

/// The first row at or after `j` for `reason`, or the length when none is.
pub open spec fn reason_at(rs: Seq<(Seq<char>, nat, Seq<char>)>, reason: Seq<char>, j: int) -> int
    decreases rs.len() - j,
{
    if j < 0 || j >= rs.len() {
        rs.len() as int
    } else if rs[j].0 == reason {
        j
    } else {
        reason_at(rs, reason, j + 1)
    }
}

/// The reason rows after one more refusal for `reason`, met in `example`:
/// its row counts one more, or a new row starts with `example`.
pub open spec fn refused_once(rs: Seq<(Seq<char>, nat, Seq<char>)>, reason: Seq<char>, example: Seq<char>) -> Seq<(Seq<char>, nat, Seq<char>)> {
    let k = reason_at(rs, reason, 0);
    if k < rs.len() {
        rs.update(k, (rs[k].0, rs[k].1 + 1, rs[k].2))
    } else {
        rs.push((reason, 1, example))
    }
}

impl Coverage {
    /// Whether no count exceeds the files counted and no reason has two rows.
    pub open spec fn wf(&self) -> bool {
        &&& self.modelled <= self.total
        &&& self.unparsed <= self.total
        &&& forall|i: int| 0 <= i < self.reasons@.len() ==> (#[trigger] self.reasons@[i]).1 <= self.total
        &&& forall|i: int, j: int|
            0 <= i < j < self.reasons@.len() ==> (#[trigger] self.reasons@[i]).0@ != (#[trigger] self.reasons@[j]).0@
    }

    /// Nothing counted yet.
    pub fn new() -> (c: Coverage)
        ensures
            c.wf(),
            c.total == 0 && c.modelled == 0 && c.unparsed == 0 && c.reasons@.len() == 0,
    {
        Coverage { total: 0, modelled: 0, unparsed: 0, reasons: Vec::new() }
    }

    /// Count one file by what viewing it came to; `example` names it.
    pub fn record(&mut self, outcome: ViewOutcome, example: &str)
        requires
            old(self).wf(),
            old(self).total < usize::MAX,
        ensures
            final(self).wf(),
            final(self).total == old(self).total + 1,
            final(self).modelled == old(self).modelled + if outcome == ViewOutcome::Modelled { 1int } else { 0int },
            final(self).unparsed == old(self).unparsed + if outcome == ViewOutcome::Unparsed { 1int } else { 0int },
            reasons_view(final(self).reasons@) == match outcome {
                ViewOutcome::Refused(reason) => refused_once(reasons_view(old(self).reasons@), reason@, example@),
                _ => reasons_view(old(self).reasons@),
            },
    {
        let ghost before = reasons_view(self.reasons@);
        self.total = self.total + 1;
        match outcome {
            ViewOutcome::Unparsed => {
                self.unparsed = self.unparsed + 1;
            },
            ViewOutcome::Modelled => {
                self.modelled = self.modelled + 1;
            },
            ViewOutcome::Refused(reason) => {
                let mut k: usize = 0;
                while k < self.reasons.len() && !same_text(self.reasons[k].0.as_str(), reason)
                    invariant
                        k <= self.reasons@.len(),
                        before == reasons_view(self.reasons@),
                        reason_at(before, reason@, 0) == reason_at(before, reason@, k as int),
                        forall|i: int| 0 <= i < k ==> (#[trigger] self.reasons@[i]).0@ != reason@,
                    decreases self.reasons@.len() - k,
                {
                    k = k + 1;
                }
                if k < self.reasons.len() {
                    let (name, count, first) = self.reasons.remove(k);
                    self.reasons.insert(k, (name, count + 1, first));
                    proof {
                        assert(reasons_view(self.reasons@) =~= refused_once(before, reason@, example@));
                    }
                } else {
                    self.reasons.push((String::from_str(reason), 1, String::from_str(example)));
                    proof {
                        assert(reasons_view(self.reasons@) =~= refused_once(before, reason@, example@));
                    }
                }
            },
        }
    }

    /// The refusal reasons, the most frequent first, equal counts by reason
    /// in byte order.
    pub fn ranked_reasons(self) -> (r: Vec<(String, usize, String)>)
        ensures
            r@ == ranked(self.reasons@),
    {
        rank(self.reasons)
    }
}

/// What viewing a file came to, given the view of its tree, or `None` when
/// it did not parse: unparsed, modelled, or refused for the view's reason.
pub fn outcome_of(viewed: Option<Result<SemanticNode, Unmodelled>>) -> (r: ViewOutcome)
    ensures
        r == match viewed {
            None => ViewOutcome::Unparsed,
            Some(Ok(_)) => ViewOutcome::Modelled,
            Some(Err(why)) => ViewOutcome::Refused(why.reason),
        },
{
    match viewed {
        None => ViewOutcome::Unparsed,
        Some(Ok(_)) => ViewOutcome::Modelled,
        Some(Err(why)) => ViewOutcome::Refused(why.reason),
    }
}

/// View one file: whether it parses and, if it does, whether the format's
/// semantic view models it or why not. The format's parse and view decide;
/// [`outcome_of`] says what each of their results comes to.
pub fn view_outcome<F: Format>(format: &F, bytes: &[u8]) -> (r: ViewOutcome)
    requires
        bytes@.len() <= u32::MAX,
    ensures
        (r == ViewOutcome::Unparsed) <==> !format.accepts(bytes@),
        r == ViewOutcome::Modelled ==> exists|c: Cst, v: SemanticNode| format.tree_of(bytes@, c) && #[trigger] format.views_as(c, Ok(v)),
        r matches ViewOutcome::Refused(why) ==> exists|c: Cst, u: Unmodelled|
            format.tree_of(bytes@, c) && #[trigger] format.views_as(c, Err(u)) && u.reason == why,
{
    let viewed = match format.parse(bytes) {
        Err(_) => None,
        Ok(cst) => {
            let v = format.semantic_view(&cst);
            let ghost gv = v;
            proof {
                match gv {
                    Ok(x) => {
                        assert(format.views_as(cst, Ok(x)));
                    },
                    Err(u) => {
                        assert(format.views_as(cst, Err(u)));
                    },
                }
            }
            Some(v)
        },
    };
    outcome_of(viewed)
}

} // verus!
