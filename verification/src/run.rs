//! `docket run <claim-id>`: the decisions around executing what a
//! claim's evaluator names. Which markers to run (or that none need
//! running), what one marker's run amounts to, and the claim's outcome
//! are decided here; spawning the commands is the caller's part. An
//! `evaluator: absent` claim runs nothing: each marker's literal is
//! searched for in the project's source, and a hit fails the claim.

use vstd::prelude::*;
use crate::absence::SourceHit;
use crate::marker::{Marker, MarkerV};
use crate::model::{push_decimal, spec_decimal, ClaimId, ClaimV, Corpus};
use crate::blast::claims_view;
use crate::text::{
    chars_of, contains_chars, contains_seq, find_char_from, index_of_char, lemma_find_char_from, lemma_segments_nonempty, owned,
    segments_from, str_eq, string_of,
};

verus! {

/// Why a claim could not be run.
#[derive(Debug, Clone, PartialEq, Eq)]
pub enum RunError {
    /// No claim with this id in the corpus.
    UnknownClaim(ClaimId),
    /// `sh` could not be started for a marker's command (the reason).
    Spawn(String),
}

/// A claim's outcome.
#[derive(Debug, Clone, Copy, PartialEq, Eq, Structural)]
pub enum Outcome {
    /// Every marker's command exited zero and none checked nothing.
    Pass,
    /// Some marker's command exited non-zero.
    Fail,
    /// No marker for the claim exists (or, for a non-`type` grade, only
    /// bare ones).
    Absent,
    /// `evaluator: none`: honestly unimplemented.
    Unimplemented,
    /// `evaluator: review`: vouched by a reader; nothing to run.
    Review,
    /// Every command exited zero, but one of them checked nothing.
    Vacuous,
}

impl Outcome {
    pub open spec fn spec_name(self) -> Seq<char> {
        match self {
            Outcome::Pass => "pass"@,
            Outcome::Fail => "fail"@,
            Outcome::Absent => "absent"@,
            Outcome::Unimplemented => "none"@,
            Outcome::Review => "review"@,
            Outcome::Vacuous => "vacuous"@,
        }
    }

    pub fn as_str(&self) -> (r: &'static str)
        ensures
            r@ == self.spec_name(),
    {
        match self {
            Outcome::Pass => "pass",
            Outcome::Fail => "fail",
            Outcome::Absent => "absent",
            Outcome::Unimplemented => "none",
            Outcome::Review => "review",
            Outcome::Vacuous => "vacuous",
        }
    }
}

impl Outcome {
    /// The exit status `docket run` reports an outcome with: `0` for pass,
    /// none and review, `1` for fail, `3` for absent, `4` for vacuous
    /// (`2` is a usage error, never an outcome).
    pub open spec fn spec_exit_status(self) -> u8 {
        match self {
            Outcome::Pass | Outcome::Unimplemented | Outcome::Review => 0,
            Outcome::Fail => 1,
            Outcome::Absent => 3,
            Outcome::Vacuous => 4,
        }
    }

    pub fn exit_status(&self) -> (r: u8)
        ensures
            r == self.spec_exit_status(),
    {
        match self {
            Outcome::Pass | Outcome::Unimplemented | Outcome::Review => 0,
            Outcome::Fail => 1,
            Outcome::Absent => 3,
            Outcome::Vacuous => 4,
        }
    }
}

// --- vacuity ---------------------------------------------------------------------

/// The one recognised vacuity signal: cargo test's summary line reporting
/// that nothing ran.
pub open spec fn vacuity_name() -> Seq<char> {
    "cargo test collected nothing to run (or only #[ignore]d tests)"@
}

pub open spec fn block_marker() -> Seq<char> {
    "test result: "@
}

pub open spec fn vacuous_marker() -> Seq<char> {
    "0 passed; 0 failed"@
}

/// Whether `stdout` shows the signal: at least one summary line, and
/// every summary line reports zero passed, zero failed.
pub open spec fn spec_is_vacuous(stdout: Seq<char>) -> bool {
    let segs = segments_from(stdout, 0);
    &&& exists|k: int| 0 <= k < segs.len() && contains_seq(#[trigger] segs[k], block_marker())
    &&& forall|k: int| 0 <= k < segs.len() && contains_seq(#[trigger] segs[k], block_marker()) ==> contains_seq(segs[k], vacuous_marker())
}

/// Recognise a successful command's output as one that checked nothing:
/// the signal's name when it does.
pub fn detect_vacuity(stdout: &str) -> (r: Option<&'static str>)
    ensures
        match r {
            Some(name) => spec_is_vacuous(stdout@) && name@ == vacuity_name(),
            None => !spec_is_vacuous(stdout@),
        },
{
    let v = chars_of(stdout);
    let block = chars_of("test result: ");
    let vac = chars_of("0 passed; 0 failed");
    let ghost segs = segments_from(v@, 0);
    let mut seen = false;
    let mut all_vacuous = true;
    let mut i: usize = 0;
    let mut done = false;
    let ghost mut k: int = 0;
    proof { lemma_segments_nonempty(v@, 0); }
    while !done
        invariant
            i <= v@.len(),
            block@ == block_marker(),
            vac@ == vacuous_marker(),
            0 <= k <= segs.len(),
            segs == segments_from(v@, 0),
            done ==> k == segs.len(),
            !done ==> segments_from(v@, i as int) == segs.skip(k) && k < segs.len(),
            seen == exists|m: int| 0 <= m < k && contains_seq(#[trigger] segs[m], block_marker()),
            all_vacuous == forall|m: int| 0 <= m < k && contains_seq(#[trigger] segs[m], block_marker()) ==> contains_seq(segs[m], vacuous_marker()),
        decreases (if done { 0 } else { v@.len() - i + 1 }),
    {
        let j = index_of_char(&v, '\n', i);
        proof {
            lemma_find_char_from(v@, '\n', i as int);
            lemma_segments_nonempty(v@, i as int);
        }
        let seg = chars_of(string_of(&v, i, j).as_str());
        proof {
            assert(segs.skip(k)[0] == segs[k]);
            assert(segs[k] == seg@);
        }
        if contains_chars(&seg, &block) {
            seen = true;
            if !contains_chars(&seg, &vac) {
                all_vacuous = false;
            }
        }
        if j < v.len() {
            proof {
                lemma_segments_nonempty(v@, j + 1);
                assert((seq![v@.subrange(i as int, j as int)] + segments_from(v@, j + 1)).skip(1) =~= segments_from(v@, j + 1));
                assert(segs.skip(k).skip(1) =~= segs.skip(k + 1));
                k = k + 1;
            }
            i = j + 1;
        } else {
            proof {
                assert(segs.skip(k).len() == 1);
                k = k + 1;
            }
            done = true;
        }
    }
    proof {
        reveal_strlit("test result: ");
        reveal_strlit("0 passed; 0 failed");
        reveal_strlit("cargo test collected nothing to run (or only #[ignore]d tests)");
    }
    if seen && all_vacuous {
        Some("cargo test collected nothing to run (or only #[ignore]d tests)")
    } else {
        None
    }
}

// --- one marker, one claim ---------------------------------------------------------

/// One marker, resolved: a commanded marker's run, or a bare marker
/// accepted on sight (success, no exit code, no output).
#[derive(Debug, Clone)]
pub struct MarkerOutcome {
    pub marker: Marker,
    pub success: bool,
    pub exit_code: Option<i32>,
    pub stdout: String,
    pub stderr: String,
    /// The vacuity signal recognised in a successful, non-exempt run.
    pub vacuous: Option<&'static str>,
}

/// What running one command produced.
#[derive(Debug, Clone)]
pub struct CommandRun {
    pub success: bool,
    pub exit_code: Option<i32>,
    pub stdout: String,
    pub stderr: String,
}

/// Resolve one marker: `ran` is what its command produced, or `None`
/// for a bare marker. Vacuity is looked for only in a successful run of
/// a marker that is not exempt.
pub fn marker_outcome(marker: Marker, ran: Option<CommandRun>) -> (r: MarkerOutcome)
    ensures
        r.marker@ == marker@,
        match ran {
            None => r.success && r.exit_code is None && r.stdout@.len() == 0 && r.stderr@.len() == 0 && r.vacuous is None,
            Some(c) => {
                &&& r.success == c.success
                &&& r.exit_code == c.exit_code
                &&& r.stdout@ == c.stdout@
                &&& r.stderr@ == c.stderr@
                &&& (c.success && !marker.exempt) ==> (r.vacuous is Some <==> spec_is_vacuous(c.stdout@))
                &&& (c.success && !marker.exempt && r.vacuous is Some) ==> r.vacuous.unwrap()@ == vacuity_name()
                &&& !(c.success && !marker.exempt) ==> r.vacuous is None
            },
        },
{
    match ran {
        None => MarkerOutcome {
            marker,
            success: true,
            exit_code: None,
            stdout: String::new(),
            stderr: String::new(),
            vacuous: None,
        },
        Some(c) => {
            let vacuous = if c.success && !marker.exempt {
                detect_vacuity(c.stdout.as_str())
            } else {
                None
            };
            MarkerOutcome { marker, success: c.success, exit_code: c.exit_code, stdout: c.stdout, stderr: c.stderr, vacuous }
        },
    }
}

/// The claim's outcome over its markers' outcomes: `Fail` if any failed,
/// else `Vacuous` if any checked nothing, else `Pass`.
pub open spec fn spec_settle(outcomes: Seq<MarkerOutcome>) -> Outcome {
    if exists|k: int| 0 <= k < outcomes.len() && !(#[trigger] outcomes[k]).success {
        Outcome::Fail
    } else if exists|k: int| 0 <= k < outcomes.len() && (#[trigger] outcomes[k]).vacuous is Some {
        Outcome::Vacuous
    } else {
        Outcome::Pass
    }
}

pub fn settle(outcomes: &Vec<MarkerOutcome>) -> (r: Outcome)
    ensures
        r == spec_settle(outcomes@),
{
    let mut any_fail = false;
    let mut any_vacuous = false;
    let mut i: usize = 0;
    while i < outcomes.len()
        invariant
            i <= outcomes@.len(),
            any_fail == exists|k: int| 0 <= k < i && !(#[trigger] outcomes@[k]).success,
            any_vacuous == exists|k: int| 0 <= k < i && (#[trigger] outcomes@[k]).vacuous is Some,
        decreases outcomes@.len() - i,
    {
        if !outcomes[i].success {
            any_fail = true;
        }
        if outcomes[i].vacuous.is_some() {
            any_vacuous = true;
        }
        i = i + 1;
    }
    if any_fail {
        Outcome::Fail
    } else if any_vacuous {
        Outcome::Vacuous
    } else {
        Outcome::Pass
    }
}

/// A claim's run: its id, its evaluator (empty when it names none), the
/// outcome, and each marker's outcome.
#[derive(Debug, Clone)]
pub struct RunResult {
    pub claim_id: ClaimId,
    pub evaluator: String,
    pub outcome: Outcome,
    pub markers: Vec<MarkerOutcome>,
}

/// What running a claim takes: nothing (its result is already known),
/// executing each of these markers in order, or, for an `evaluator:
/// absent` claim, searching the project's source for each marker's
/// literal (its command text), which is never executed.
#[derive(Debug, Clone)]
pub enum RunPlan {
    Done(RunResult),
    Execute { claim_id: ClaimId, evaluator: String, markers: Vec<Marker> },
    Search { claim_id: ClaimId, evaluator: String, markers: Vec<Marker> },
}

/// The index of the first claim with id `id`.
pub open spec fn first_claim(claims: Seq<ClaimV>, id: Seq<char>, i: int) -> Option<int>
    decreases claims.len() - i,
{
    if i < 0 || i >= claims.len() {
        None
    } else if claims[i].id == id {
        Some(i)
    } else {
        first_claim(claims, id, i + 1)
    }
}

/// The markers that can evidence a claim: those naming its id, and for
/// any grade but `type`, only those with a command.
pub open spec fn marker_matches(m: MarkerV, id: Seq<char>, type_grade: bool) -> bool {
    m.id == id && (type_grade || m.command is Some)
}

pub open spec fn matching_markers(markers: Seq<MarkerV>, id: Seq<char>, type_grade: bool) -> Seq<MarkerV> {
    markers.filter(|m: MarkerV| marker_matches(m, id, type_grade))
}

pub open spec fn markers_view(v: Seq<Marker>) -> Seq<MarkerV> {
    v.map_values(|m: Marker| m@)
}

pub open spec fn evaluator_of(c: ClaimV) -> Seq<char> {
    match c.raw.evaluator {
        Some(e) => e,
        None => Seq::empty(),
    }
}

/// The index of the first claim with id `id`.
pub fn find_claim(corpus: &Corpus, id: &str) -> (r: Option<usize>)
    ensures
        match r {
            Some(i) => first_claim(claims_view(corpus.claims@), id@, 0) == Some(i as int) && i < corpus.claims@.len(),
            None => first_claim(claims_view(corpus.claims@), id@, 0) is None,
        },
{
    let ghost cv = claims_view(corpus.claims@);
    let mut i: usize = 0;
    while i < corpus.claims.len()
        invariant
            i <= corpus.claims@.len(),
            cv == claims_view(corpus.claims@),
            first_claim(cv, id@, 0) == first_claim(cv, id@, i as int),
        decreases corpus.claims@.len() - i,
    {
        assert(cv[i as int] == corpus.claims@[i as int]@);
        if str_eq(corpus.claims[i].id.as_str(), id) {
            return Some(i);
        }
        i = i + 1;
    }
    None
}

/// Decide what running `claim_id` takes: an unknown id is an error;
/// `evaluator: none` and `evaluator: review` are settled at once; a
/// claim with no matching marker is `Absent`; anything else needs its
/// matching markers executed.
pub fn plan_run(corpus: &Corpus, claim_id: &str, markers: &Vec<Marker>) -> (r: Result<RunPlan, RunError>)
    ensures
        match first_claim(claims_view(corpus.claims@), claim_id@, 0) {
            None => r matches Err(RunError::UnknownClaim(id)) && id@ == claim_id@,
            Some(ci) => {
                let c = claims_view(corpus.claims@)[ci];
                let e = evaluator_of(c);
                let matching = matching_markers(markers_view(markers@), c.id, e == "type"@);
                match r {
                    Ok(RunPlan::Done(res)) => {
                        &&& res.claim_id@ == c.id
                        &&& res.evaluator@ == e
                        &&& res.markers@.len() == 0
                        &&& res.outcome == if e == "none"@ {
                            Outcome::Unimplemented
                        } else if e == "review"@ {
                            Outcome::Review
                        } else {
                            Outcome::Absent
                        }
                        &&& (e != "none"@ && e != "review"@) ==> matching.len() == 0
                    },
                    Ok(RunPlan::Execute { claim_id: id, evaluator, markers: ms }) => {
                        &&& id@ == c.id
                        &&& evaluator@ == e
                        &&& e != "none"@ && e != "review"@ && e != "absent"@
                        &&& markers_view(ms@) == matching
                        &&& matching.len() > 0
                    },
                    Ok(RunPlan::Search { claim_id: id, evaluator, markers: ms }) => {
                        &&& id@ == c.id
                        &&& evaluator@ == e
                        &&& e == "absent"@
                        &&& markers_view(ms@) == matching
                        &&& matching.len() > 0
                    },
                    Err(_) => false,
                }
            },
        },
{
    let ghost cv = claims_view(corpus.claims@);
    let i = match find_claim(corpus, claim_id) {
        Some(i) => i,
        None => return Err(RunError::UnknownClaim(owned(claim_id))),
    };
    let claim = &corpus.claims[i];
    assert(cv[i as int] == claim@);
    let evaluator = match &claim.raw.evaluator {
        Some(e) => owned(e.as_str()),
        None => String::new(),
    };
    proof {
        reveal_strlit("none");
        reveal_strlit("review");
        reveal_strlit("type");
        reveal_strlit("absent");
    }
    if str_eq(evaluator.as_str(), "none") {
        return Ok(RunPlan::Done(RunResult { claim_id: claim.id.clone(), evaluator, outcome: Outcome::Unimplemented, markers: Vec::new() }));
    }
    if str_eq(evaluator.as_str(), "review") {
        return Ok(RunPlan::Done(RunResult { claim_id: claim.id.clone(), evaluator, outcome: Outcome::Review, markers: Vec::new() }));
    }
    let type_grade = str_eq(evaluator.as_str(), "type");
    let ghost mv = markers_view(markers@);
    let ghost cid = claim@.id;
    let mut matching: Vec<Marker> = Vec::new();
    let mut k: usize = 0;
    while k < markers.len()
        invariant
            k <= markers@.len(),
            mv == markers_view(markers@),
            type_grade == (evaluator@ == "type"@),
            cid == claim@.id,
            markers_view(matching@) == matching_markers(mv.take(k as int), cid, type_grade),
        decreases markers@.len() - k,
    {
        let m = &markers[k];
        let ghost prev = markers_view(matching@);
        let keep = str_eq(m.id.as_str(), claim.id.as_str()) && (type_grade || m.command.is_some());
        proof {
            reveal(Seq::filter);
            assert(mv.take(k + 1).drop_last() =~= mv.take(k as int));
            assert(mv.take(k + 1).last() == m@);
            assert(marker_matches(m@, cid, type_grade) == keep);
            assert(matching_markers(mv.take(k + 1), cid, type_grade) == if keep {
                matching_markers(mv.take(k as int), cid, type_grade).push(m@)
            } else {
                matching_markers(mv.take(k as int), cid, type_grade)
            });
        }
        if keep {
            let c = m.copy();
            matching.push(c);
            proof { assert(markers_view(matching@) =~= prev.push(c@)); }
        }
        k = k + 1;
    }
    proof { assert(mv.take(markers@.len() as int) =~= mv); }
    if matching.len() == 0 {
        return Ok(RunPlan::Done(RunResult { claim_id: claim.id.clone(), evaluator, outcome: Outcome::Absent, markers: Vec::new() }));
    }
    if str_eq(evaluator.as_str(), "absent") {
        return Ok(RunPlan::Search { claim_id: claim.id.clone(), evaluator, markers: matching });
    }
    Ok(RunPlan::Execute { claim_id: claim.id.clone(), evaluator, markers: matching })
}

// --- absence claims ----------------------------------------------------------------

/// Each hit as a `file:line` line.
pub open spec fn hits_text(hits: Seq<SourceHit>) -> Seq<char>
    decreases hits.len(),
{
    if hits.len() == 0 {
        Seq::empty()
    } else {
        let h = hits.last();
        hits_text(hits.drop_last()) + h.file@ + seq![':'] + spec_decimal(h.line.0 as nat) + seq!['\n']
    }
}

/// Resolve one marker of an absent claim from where its literal was
/// found: it holds when the literal occurs nowhere, and its output lists
/// the hits.
pub fn search_outcome(marker: Marker, hits: &Vec<SourceHit>) -> (r: MarkerOutcome)
    ensures
        r.marker@ == marker@,
        r.success == (hits@.len() == 0),
        r.exit_code is None,
        r.stdout@ == hits_text(hits@),
        r.stderr@.len() == 0,
        r.vacuous is None,
{
    let mut out: Vec<char> = Vec::new();
    let mut i: usize = 0;
    while i < hits.len()
        invariant
            i <= hits@.len(),
            out@ == hits_text(hits@.take(i as int)),
        decreases hits@.len() - i,
    {
        let h = &hits[i];
        let f = chars_of(h.file.as_str());
        let mut j: usize = 0;
        let ghost base = out@;
        while j < f.len()
            invariant
                j <= f@.len(),
                out@ == base + f@.take(j as int),
            decreases f@.len() - j,
        {
            out.push(f[j]);
            proof { assert(f@.take(j + 1) =~= f@.take(j as int).push(f@[j as int])); }
            j = j + 1;
        }
        out.push(':');
        push_decimal(&mut out, h.line.0);
        out.push('\n');
        proof {
            assert(hits@.take(i + 1).drop_last() =~= hits@.take(i as int));
            assert(f@.take(f@.len() as int) =~= f@);
            assert(out@ =~= hits_text(hits@.take(i + 1)));
        }
        i = i + 1;
    }
    proof { assert(hits@.take(hits@.len() as int) =~= hits@); assert(out@.subrange(0, out@.len() as int) =~= out@); }
    let stdout = string_of(&out, 0, out.len());
    MarkerOutcome { marker, success: hits.len() == 0, exit_code: None, stdout, stderr: String::new(), vacuous: None }
}

/// The outcome of an absent claim from the hits of each of its markers'
/// literals (`hits[k]` for `markers[k]`): `Fail` when any literal was
/// found, else `Pass`.
pub fn settle_absence(claim_id: ClaimId, evaluator: String, markers: Vec<Marker>, hits: &Vec<Vec<SourceHit>>) -> (r: RunResult)
    requires
        markers@.len() == hits@.len(),
    ensures
        r.claim_id@ == claim_id@,
        r.evaluator@ == evaluator@,
        r.outcome == if exists|k: int| 0 <= k < hits@.len() && (#[trigger] hits@[k])@.len() > 0 {
            Outcome::Fail
        } else {
            Outcome::Pass
        },
        r.markers@.len() == markers@.len(),
        forall|k: int| 0 <= k < markers@.len() ==> {
            &&& (#[trigger] r.markers@[k]).marker@ == markers@[k]@
            &&& r.markers@[k].success == (hits@[k]@.len() == 0)
            &&& r.markers@[k].stdout@ == hits_text(hits@[k]@)
        },
{
    let ghost ms = markers@;
    let mut outcomes: Vec<MarkerOutcome> = Vec::new();
    let mut rest = markers;
    let mut k: usize = 0;
    proof { assert(rest@ =~= ms.skip(0)); }
    while k < hits.len()
        invariant
            k <= hits@.len(),
            ms.len() == hits@.len(),
            rest@ == ms.skip(k as int),
            outcomes@.len() == k,
            forall|j: int| 0 <= j < k ==> {
                &&& (#[trigger] outcomes@[j]).marker@ == ms[j]@
                &&& outcomes@[j].success == (hits@[j]@.len() == 0)
                &&& outcomes@[j].stdout@ == hits_text(hits@[j]@)
                &&& outcomes@[j].vacuous is None
            },
        decreases hits@.len() - k,
    {
        let m = rest.remove(0);
        proof { assert(rest@ =~= ms.skip(k + 1)); }
        let o = search_outcome(m, &hits[k]);
        outcomes.push(o);
        k = k + 1;
    }
    let outcome = settle(&outcomes);
    proof {
        if exists|k: int| 0 <= k < hits@.len() && (#[trigger] hits@[k])@.len() > 0 {
            let w = choose|k: int| 0 <= k < hits@.len() && (#[trigger] hits@[k])@.len() > 0;
            assert(!outcomes@[w].success);
        } else {
            assert forall|j: int| 0 <= j < outcomes@.len() implies (#[trigger] outcomes@[j]).success by {
                assert(!(hits@[j]@.len() > 0));
            }
        }
    }
    RunResult { claim_id, evaluator, outcome, markers: outcomes }
}

} // verus!
