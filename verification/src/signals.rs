//! Per-claim citation-graph signals — reported, never failed on.

use vstd::prelude::*;
use crate::blast::{blast_radius, citing, claims_view, spec_blast_radius, visit_spec, WalkV};
use crate::model::{spec_refs, Claim, ClaimV, Corpus};
use crate::text::{owned, str_eq};

verus! {

/// One claim's place in the citation graph.
#[derive(Debug, Clone, PartialEq, Eq)]
pub struct ClaimSignals {
    pub id: String,
    pub file: String,
    pub line: usize,
    /// References this claim declares (`depends` and `because`).
    pub out_degree: usize,
    /// References to this claim's id from the corpus.
    pub in_degree: usize,
    /// How many claims its blast radius reaches.
    pub review_surface: usize,
}

pub struct ClaimSignalsV {
    pub id: Seq<char>,
    pub file: Seq<char>,
    pub line: usize,
    pub out_degree: nat,
    pub in_degree: nat,
    pub review_surface: nat,
}

impl View for ClaimSignals {
    type V = ClaimSignalsV;

    open spec fn view(&self) -> ClaimSignalsV {
        ClaimSignalsV {
            id: self.id@,
            file: self.file@,
            line: self.line,
            out_degree: self.out_degree as nat,
            in_degree: self.in_degree as nat,
            review_surface: self.review_surface as nat,
        }
    }
}

/// The signals of every claim of a corpus, in corpus order.
pub struct GraphSignals {
    pub claims: Vec<ClaimSignals>,
}

/// The signals of one claim of `claims`.
pub open spec fn spec_claim_signals(claims: Seq<ClaimV>, c: ClaimV) -> ClaimSignalsV {
    ClaimSignalsV {
        id: c.id,
        file: c.file,
        line: c.block_line,
        out_degree: spec_refs(c).len(),
        in_degree: citing(claims, c.id, claims.len() as int).len(),
        review_surface: spec_blast_radius(claims, c.id).entries.len(),
    }
}

/// A claim nothing cites has an empty blast radius.
pub proof fn lemma_zero_inbound_has_no_review_surface(claims: Seq<ClaimV>, id: Seq<char>)
    requires
        citing(claims, id, claims.len() as int).len() == 0,
    ensures
        spec_blast_radius(claims, id).entries.len() == 0,
{
    let st = WalkV { visited: seq![id], stack: seq![id], entries: Seq::empty(), cycles: Seq::empty() };
    assert(visit_spec(claims, id, st, (claims.len() + 1) as nat) == st);
}

/// Compute every claim's signals.
pub fn compute(corpus: &Corpus) -> (r: GraphSignals)
    ensures
        r.claims@.len() == corpus.claims@.len(),
        forall|k: int| 0 <= k < r.claims@.len() ==> #[trigger] r.claims@[k]@ == spec_claim_signals(
            claims_view(corpus.claims@),
            corpus.claims@[k]@,
        ),
        forall|k: int| 0 <= k < r.claims@.len() && #[trigger] r.claims@[k].in_degree == 0 ==> r.claims@[k].review_surface == 0,
{
    let ghost cv = claims_view(corpus.claims@);
    let mut out: Vec<ClaimSignals> = Vec::new();
    let mut i: usize = 0;
    while i < corpus.claims.len()
        invariant
            i <= corpus.claims@.len(),
            cv == claims_view(corpus.claims@),
            out@.len() == i,
            forall|k: int| 0 <= k < i ==> #[trigger] out@[k]@ == spec_claim_signals(cv, corpus.claims@[k]@),
            forall|k: int| 0 <= k < i && #[trigger] out@[k].in_degree == 0 ==> out@[k].review_surface == 0,
        decreases corpus.claims@.len() - i,
    {
        let claim = &corpus.claims[i];
        let citers = crate::blast::citers_of(&corpus.claims, claim.id.as_str());
        let in_degree = citers.len();
        assert(cv[i as int] == claim@);
        assert(in_degree == citing(cv, claim@.id, cv.len() as int).len());
        let out_degree = claim.refs().len();
        let review_surface = blast_radius(corpus, claim.id.as_str()).entries.len();
        proof {
            assert(spec_refs(claim@).len() == out_degree);
            if in_degree == 0 {
                lemma_zero_inbound_has_no_review_surface(cv, claim@.id);
            }
        }
        out.push(ClaimSignals {
            id: claim.id.clone(),
            file: claim.file.clone(),
            line: claim.block_line.0,
            out_degree,
            in_degree,
            review_surface,
        });
        i = i + 1;
    }
    GraphSignals { claims: out }
}

impl GraphSignals {
    /// The claims nothing cites, in corpus order.
    pub fn zero_inbound(&self) -> (r: Vec<ClaimSignals>)
        ensures
            r@.map_values(|c: ClaimSignals| c@) == self.claims@.map_values(|c: ClaimSignals| c@).filter(
                |c: ClaimSignalsV| c.in_degree == 0,
            ),
    {
        let ghost all = self.claims@.map_values(|c: ClaimSignals| c@);
        let mut out: Vec<ClaimSignals> = Vec::new();
        let mut i: usize = 0;
        while i < self.claims.len()
            invariant
                i <= self.claims@.len(),
                all == self.claims@.map_values(|c: ClaimSignals| c@),
                out@.map_values(|c: ClaimSignals| c@) == all.take(i as int).filter(|c: ClaimSignalsV| c.in_degree == 0),
            decreases self.claims@.len() - i,
        {
            let c = &self.claims[i];
            let ghost prev = out@.map_values(|c: ClaimSignals| c@);
            proof {
                reveal(Seq::filter);
                assert(all.take(i + 1).drop_last() =~= all.take(i as int));
                assert(all.take(i + 1).last() == c@);
            }
            if c.in_degree == 0 {
                let copy = ClaimSignals {
                    id: c.id.clone(),
                    file: c.file.clone(),
                    line: c.line,
                    out_degree: c.out_degree,
                    in_degree: c.in_degree,
                    review_surface: c.review_surface,
                };
                out.push(copy);
                proof { assert(out@.map_values(|c: ClaimSignals| c@) =~= prev.push(copy@)); }
            }
            proof {
                reveal(Seq::filter);
                assert(all.take(i + 1).filter(|c: ClaimSignalsV| c.in_degree == 0) == if c@.in_degree == 0 {
                    all.take(i as int).filter(|c: ClaimSignalsV| c.in_degree == 0).push(c@)
                } else {
                    all.take(i as int).filter(|c: ClaimSignalsV| c.in_degree == 0)
                });
            }
            i = i + 1;
        }
        proof { assert(all.take(self.claims@.len() as int) =~= all); }
        out
    }
}

/// A claim whose legacy `evaluator` is `review` or `proof`: under the
/// axis shape either could name a different target.
#[derive(Debug, Clone, PartialEq, Eq)]
pub struct LegacyTargetAmbiguous {
    pub id: String,
    pub file: String,
    pub line: usize,
    pub evaluator: String,
}

impl View for LegacyTargetAmbiguous {
    type V = (Seq<char>, Seq<char>, usize, Seq<char>);

    open spec fn view(&self) -> (Seq<char>, Seq<char>, usize, Seq<char>) {
        (self.id@, self.file@, self.line, self.evaluator@)
    }
}

pub open spec fn is_ambiguous_evaluator(e: Seq<char>) -> bool {
    e == "review"@ || e == "proof"@
}

/// The target-ambiguous claims among the first `n`, in corpus order.
pub open spec fn spec_legacy_ambiguous(claims: Seq<ClaimV>, n: int) -> Seq<(Seq<char>, Seq<char>, usize, Seq<char>)>
    decreases n,
{
    if n <= 0 {
        Seq::empty()
    } else {
        let c = claims[n - 1];
        spec_legacy_ambiguous(claims, n - 1) + match c.raw.evaluator {
            Some(e) => if is_ambiguous_evaluator(e) { seq![(c.id, c.file, c.block_line, e)] } else { Seq::empty() },
            None => Seq::empty(),
        }
    }
}

/// Every claim whose legacy `evaluator` is `review` or `proof`.
pub fn legacy_target_ambiguous(corpus: &Corpus) -> (r: Vec<LegacyTargetAmbiguous>)
    ensures
        r@.map_values(|a: LegacyTargetAmbiguous| a@) == spec_legacy_ambiguous(
            claims_view(corpus.claims@),
            corpus.claims@.len() as int,
        ),
{
    let ghost cv = claims_view(corpus.claims@);
    let mut out: Vec<LegacyTargetAmbiguous> = Vec::new();
    let mut i: usize = 0;
    while i < corpus.claims.len()
        invariant
            i <= corpus.claims@.len(),
            cv == claims_view(corpus.claims@),
            out@.map_values(|a: LegacyTargetAmbiguous| a@) == spec_legacy_ambiguous(cv, i as int),
        decreases corpus.claims@.len() - i,
    {
        let c = &corpus.claims[i];
        assert(cv[i as int] == c@);
        let ghost prev = out@.map_values(|a: LegacyTargetAmbiguous| a@);
        match &c.raw.evaluator {
            Some(e) => {
                proof {
                    reveal_strlit("review");
                    reveal_strlit("proof");
                }
                if str_eq(e.as_str(), "review") || str_eq(e.as_str(), "proof") {
                    let a = LegacyTargetAmbiguous { id: c.id.clone(), file: c.file.clone(), line: c.block_line.0, evaluator: owned(e.as_str()) };
                    out.push(a);
                    proof { assert(out@.map_values(|a: LegacyTargetAmbiguous| a@) =~= prev + seq![a@]); }
                } else {
                    proof { assert(out@.map_values(|a: LegacyTargetAmbiguous| a@) =~= prev + Seq::<(Seq<char>, Seq<char>, usize, Seq<char>)>::empty()); }
                }
            },
            None => {
                proof { assert(out@.map_values(|a: LegacyTargetAmbiguous| a@) =~= prev + Seq::<(Seq<char>, Seq<char>, usize, Seq<char>)>::empty()); }
            },
        }
        i = i + 1;
    }
    out
}

} // verus!
