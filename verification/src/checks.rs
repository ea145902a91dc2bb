//! The check report: what the register's evaluation says of a corpus.

use vstd::prelude::*;
use crate::config::{Config, Genre};
use crate::corpus::LoadedCorpus;
use crate::extract::NormativeOccurrenceV;
use crate::index::copy_strings;
use crate::model::{spec_ref_string, CiteRef, Claim, Document, Heading, Index, Kind};
use crate::text::owned;

verus! {

/// How serious a diagnostic is: a `Fail` fails the run; a `Warn` is
/// reported and passes.
#[derive(Debug, Clone, Copy, PartialEq, Eq, Structural)]
pub enum Severity {
    Fail,
    Warn,
}

/// A severity by the register's name for it: `fail` or `warn`.
pub fn parse_severity(s: &str) -> (r: Option<Severity>)
    ensures
        r == if s@ == "fail"@ {
            Some(Severity::Fail)
        } else if s@ == "warn"@ {
            Some(Severity::Warn)
        } else {
            None::<Severity>
        },
{
    proof {
        reveal_strlit("fail");
        reveal_strlit("warn");
    }
    if crate::text::str_eq(s, "fail") {
        Some(Severity::Fail)
    } else if crate::text::str_eq(s, "warn") {
        Some(Severity::Warn)
    } else {
        None
    }
}

/// One finding: which check fired, how serious it is, and where.
#[derive(Debug, Clone, PartialEq, Eq)]
pub struct Diagnostic {
    /// The check's own identifier, as the register names it.
    pub check: String,
    pub severity: Severity,
    pub file: String,
    pub line: usize,
    pub message: String,
}

pub struct DiagnosticV {
    pub check: Seq<char>,
    pub severity: Severity,
    pub file: Seq<char>,
    pub line: usize,
    pub message: Seq<char>,
}

impl View for Diagnostic {
    type V = DiagnosticV;

    open spec fn view(&self) -> DiagnosticV {
        DiagnosticV {
            check: self.check@,
            severity: self.severity,
            file: self.file@,
            line: self.line,
            message: self.message@,
        }
    }
}

impl Diagnostic {
    /// A copy with the same fields.
    pub fn copy(&self) -> (r: Diagnostic)
        ensures
            r@ == self@,
    {
        Diagnostic {
            check: self.check.clone(),
            severity: self.severity,
            file: self.file.clone(),
            line: self.line,
            message: self.message.clone(),
        }
    }
}

/// Every diagnostic of a run.
#[derive(Debug, Clone)]
pub struct CheckReport {
    pub diagnostics: Vec<Diagnostic>,
}

impl CheckReport {
    /// Whether some diagnostic is at `Fail` severity.
    pub open spec fn has_failure(&self) -> bool {
        exists|k: int| 0 <= k < self.diagnostics@.len() && (#[trigger] self.diagnostics@[k]).severity == Severity::Fail
    }

    /// True iff nothing at `Fail` severity fired: a report holding only
    /// warnings still passes.
    pub fn passed(&self) -> (r: bool)
        ensures
            r == !self.has_failure(),
    {
        let mut i: usize = 0;
        while i < self.diagnostics.len()
            invariant
                i <= self.diagnostics@.len(),
                forall|k: int| 0 <= k < i ==> (#[trigger] self.diagnostics@[k]).severity != Severity::Fail,
            decreases self.diagnostics@.len() - i,
        {
            if self.diagnostics[i].severity == Severity::Fail {
                return false;
            }
            i = i + 1;
        }
        true
    }
}

/// Adding a warning never makes a passing report fail, and adding a
/// failure always makes it fail.
pub proof fn lemma_passed_after_push(r: CheckReport, d: Diagnostic, r2: CheckReport)
    requires
        r2.diagnostics@ == r.diagnostics@.push(d),
    ensures
        r2.has_failure() == (r.has_failure() || d.severity == Severity::Fail),
{
    if d.severity == Severity::Fail {
        assert(r2.diagnostics@[r.diagnostics@.len() as int].severity == Severity::Fail);
    }
    if r.has_failure() {
        let k = choose|k: int| 0 <= k < r.diagnostics@.len() && (#[trigger] r.diagnostics@[k]).severity == Severity::Fail;
        assert(r2.diagnostics@[k] == r.diagnostics@[k]);
    }
    if r2.has_failure() {
        let k = choose|k: int| 0 <= k < r2.diagnostics@.len() && (#[trigger] r2.diagnostics@[k]).severity == Severity::Fail;
        if k < r.diagnostics@.len() {
            assert(r2.diagnostics@[k] == r.diagnostics@[k]);
        }
    }
}

/// The register evaluation's full result: the index and every check's
/// diagnostics.
#[derive(Debug, Clone)]
pub struct RegisterResult {
    pub index: Index,
    pub report: CheckReport,
}

} // verus!

verus! {

// --- the register's input ----------------------------------------------------------

/// What serde_norway followed by serde_json make of a claim block's YAML:
/// the block as compact JSON text, or the text of the error that stopped
/// either step.
pub uninterp spec fn yaml_as_json(yaml: Seq<char>) -> Result<Seq<char>, Seq<char>>;

pub open spec fn result_text(r: Result<String, String>) -> Result<Seq<char>, Seq<char>> {
    match r {
        Ok(t) => Ok(t@),
        Err(e) => Err(e@),
    }
}

/// Re-reads a claim block's YAML as JSON: `serde_norway::from_str` into
/// its `Value`, `serde_json::to_value` of that, rendered by `serde_json`'s
/// `Display` (compact); an error of either crate gives its `Display`
/// text. The contract claims only that the result is `yaml_as_json` of
/// the text, a function of the text alone; what that JSON or error text
/// is for a given block is left unsaid.
#[verifier::external_body]
pub(crate) fn yaml_json(yaml: &str) -> (r: Result<String, String>)
    ensures
        result_text(r) == yaml_as_json(yaml@),
{
    let value = match serde_norway::from_str::<serde_norway::Value>(yaml) {
        Ok(value) => value,
        Err(e) => return Err(e.to_string()),
    };
    match serde_json::to_value(&value) {
        Ok(json) => Ok(json.to_string()),
        Err(e) => Err(e.to_string()),
    }
}

/// One claim as the register reads it.
#[derive(Debug)]
pub struct InputClaim {
    pub id: String,
    pub file: String,
    pub heading_line: usize,
    pub block_line: usize,
    /// The claim block as JSON text, or why it could not be read.
    pub raw: Result<String, String>,
    pub depends: Vec<String>,
    pub because: Vec<String>,
    pub prose_links: Vec<String>,
}

#[derive(Debug)]
pub struct InputHeading {
    pub level: u8,
    pub text: String,
    pub line: usize,
}

#[derive(Debug)]
pub struct InputDocument {
    pub doc_path: String,
    pub file: String,
    pub genre_path: String,
    pub headings: Vec<InputHeading>,
}

#[derive(Debug)]
pub struct InputGenre {
    pub path: String,
    pub kinds: Vec<String>,
}

/// Everything the register evaluates: claims, documents, genres, and the
/// extraction findings it reports on.
#[derive(Debug)]
pub struct RegisterInput {
    pub claims: Vec<InputClaim>,
    pub documents: Vec<InputDocument>,
    pub genres: Vec<InputGenre>,
    /// (file, line) of each orphan claim block.
    pub orphan_claims: Vec<(String, usize)>,
    /// (file, line, keyword) of each normative keyword.
    pub normative_occurrences: Vec<(String, usize, String)>,
    /// (file, line, id) of each unregistered definition.
    pub unregistered_definitions: Vec<(String, usize, String)>,
}

pub open spec fn refs_text(v: Seq<CiteRef>) -> Seq<Seq<char>> {
    v.map_values(|r: CiteRef| spec_ref_string(r@))
}

/// `i` is the register's reading of claim `c`.
pub open spec fn claim_input(i: InputClaim, c: Claim) -> bool {
    &&& i.id@ == c.id@
    &&& i.file@ == c.file@
    &&& i.heading_line == c.heading_line.0
    &&& i.block_line == c.block_line.0
    &&& result_text(i.raw) == yaml_as_json(c.raw.yaml@)
    &&& i.depends.deep_view() == refs_text(c.depends@)
    &&& i.because.deep_view() == refs_text(c.because@)
    &&& i.prose_links.deep_view() == c.prose_links.deep_view()
}

pub open spec fn heading_input(i: InputHeading, h: Heading) -> bool {
    i.level == h.level && i.text@ == h.text@ && i.line == h.line.0
}

pub open spec fn document_input(i: InputDocument, d: Document) -> bool {
    &&& i.doc_path@ == d.doc_path@
    &&& i.file@ == d.file@
    &&& i.genre_path@ == d.genre_path@
    &&& i.headings@.len() == d.headings@.len()
    &&& forall|k: int| 0 <= k < d.headings@.len() ==> heading_input(#[trigger] i.headings@[k], d.headings@[k])
}

pub open spec fn genre_input(i: InputGenre, g: Genre) -> bool {
    &&& i.path@ == g.path@
    &&& i.kinds.deep_view() == g.kinds@.map_values(|k: Kind| k.spec_name())
}

fn refs_strings(v: &Vec<CiteRef>) -> (r: Vec<String>)
    ensures
        r.deep_view() == refs_text(v@),
{
    let mut out: Vec<String> = Vec::new();
    let mut i: usize = 0;
    while i < v.len()
        invariant
            i <= v@.len(),
            out.deep_view() == refs_text(v@.take(i as int)),
        decreases v@.len() - i,
    {
        out.push(v[i].to_string());
        proof { assert(refs_text(v@.take(i + 1)) =~= refs_text(v@.take(i as int)).push(spec_ref_string(v@[i as int]@))); }
        i = i + 1;
    }
    proof { assert(v@.take(v@.len() as int) =~= v@); }
    out
}

fn claim_of(c: &Claim) -> (r: InputClaim)
    ensures
        claim_input(r, *c),
{
    InputClaim {
        id: c.id.clone(),
        file: c.file.clone(),
        heading_line: c.heading_line.0,
        block_line: c.block_line.0,
        raw: yaml_json(c.raw.yaml.as_str()),
        depends: refs_strings(&c.depends),
        because: refs_strings(&c.because),
        prose_links: copy_strings(&c.prose_links),
    }
}

fn document_of(d: &Document) -> (r: InputDocument)
    ensures
        document_input(r, *d),
{
    let mut headings: Vec<InputHeading> = Vec::new();
    let mut k: usize = 0;
    while k < d.headings.len()
        invariant
            k <= d.headings@.len(),
            headings@.len() == k,
            forall|j: int| 0 <= j < k ==> heading_input(#[trigger] headings@[j], d.headings@[j]),
        decreases d.headings@.len() - k,
    {
        let h = &d.headings[k];
        headings.push(InputHeading { level: h.level, text: h.text.clone(), line: h.line.0 });
        k = k + 1;
    }
    InputDocument { doc_path: d.doc_path.clone(), file: d.file.clone(), genre_path: d.genre_path.clone(), headings }
}

fn genre_of(g: &Genre) -> (r: InputGenre)
    ensures
        genre_input(r, *g),
{
    let mut kinds: Vec<String> = Vec::new();
    let mut k: usize = 0;
    while k < g.kinds.len()
        invariant
            k <= g.kinds@.len(),
            kinds.deep_view() == g.kinds@.take(k as int).map_values(|x: Kind| x.spec_name()),
        decreases g.kinds@.len() - k,
    {
        kinds.push(owned(g.kinds[k].as_str()));
        proof {
            assert(g.kinds@.take(k + 1).map_values(|x: Kind| x.spec_name()) =~= g.kinds@.take(k as int).map_values(
                |x: Kind| x.spec_name(),
            ).push(g.kinds@[k as int].spec_name()));
        }
        k = k + 1;
    }
    proof { assert(g.kinds@.take(g.kinds@.len() as int) =~= g.kinds@); }
    InputGenre { path: g.path.clone(), kinds }
}

/// The register's input for a loaded corpus under `config`: every claim
/// (its block re-read as JSON), document and genre in order, and the
/// orphan claim blocks, normative keywords and unregistered definitions
/// extraction found, in order.
pub fn register_input(loaded: &LoadedCorpus, config: &Config) -> (r: RegisterInput)
    ensures
        r.claims@.len() == loaded.corpus.claims@.len(),
        forall|k: int| 0 <= k < r.claims@.len() ==> claim_input(#[trigger] r.claims@[k], loaded.corpus.claims@[k]),
        r.documents@.len() == loaded.corpus.documents@.len(),
        forall|k: int| 0 <= k < r.documents@.len() ==> document_input(#[trigger] r.documents@[k], loaded.corpus.documents@[k]),
        r.genres@.len() == config.genres@.len(),
        forall|k: int| 0 <= k < r.genres@.len() ==> genre_input(#[trigger] r.genres@[k], config.genres@[k]),
        r.orphan_claims@.len() == loaded.orphan_claims@.len(),
        forall|k: int| 0 <= k < r.orphan_claims@.len() ==> {
            let (f, l) = #[trigger] r.orphan_claims@[k];
            (f@, l) == loaded.orphan_claims@[k]@
        },
        r.normative_occurrences@.len() == loaded.normative_occurrences@.len(),
        forall|k: int| 0 <= k < r.normative_occurrences@.len() ==> {
            let (f, l, w) = #[trigger] r.normative_occurrences@[k];
            NormativeOccurrenceV { file: f@, line: l, keyword: w@ } == loaded.normative_occurrences@[k]@
        },
        r.unregistered_definitions@.len() == loaded.unregistered_definitions@.len(),
        forall|k: int| 0 <= k < r.unregistered_definitions@.len() ==> {
            let (f, l, id) = #[trigger] r.unregistered_definitions@[k];
            (f@, l, id@) == loaded.unregistered_definitions@[k]@
        },
{
    let corpus = &loaded.corpus;
    let mut claims: Vec<InputClaim> = Vec::new();
    let mut k: usize = 0;
    while k < corpus.claims.len()
        invariant
            k <= corpus.claims@.len(),
            claims@.len() == k,
            forall|j: int| 0 <= j < k ==> claim_input(#[trigger] claims@[j], corpus.claims@[j]),
        decreases corpus.claims@.len() - k,
    {
        claims.push(claim_of(&corpus.claims[k]));
        k = k + 1;
    }
    let mut documents: Vec<InputDocument> = Vec::new();
    let mut k: usize = 0;
    while k < corpus.documents.len()
        invariant
            k <= corpus.documents@.len(),
            documents@.len() == k,
            forall|j: int| 0 <= j < k ==> document_input(#[trigger] documents@[j], corpus.documents@[j]),
        decreases corpus.documents@.len() - k,
    {
        documents.push(document_of(&corpus.documents[k]));
        k = k + 1;
    }
    let mut genres: Vec<InputGenre> = Vec::new();
    let mut k: usize = 0;
    while k < config.genres.len()
        invariant
            k <= config.genres@.len(),
            genres@.len() == k,
            forall|j: int| 0 <= j < k ==> genre_input(#[trigger] genres@[j], config.genres@[j]),
        decreases config.genres@.len() - k,
    {
        genres.push(genre_of(&config.genres[k]));
        k = k + 1;
    }
    let mut orphan_claims: Vec<(String, usize)> = Vec::new();
    let mut k: usize = 0;
    while k < loaded.orphan_claims.len()
        invariant
            k <= loaded.orphan_claims@.len(),
            orphan_claims@.len() == k,
            forall|j: int| 0 <= j < k ==> {
                let (f, l) = #[trigger] orphan_claims@[j];
                (f@, l) == loaded.orphan_claims@[j]@
            },
        decreases loaded.orphan_claims@.len() - k,
    {
        let o = &loaded.orphan_claims[k];
        orphan_claims.push((o.file.clone(), o.line.0));
        k = k + 1;
    }
    let mut normative_occurrences: Vec<(String, usize, String)> = Vec::new();
    let mut k: usize = 0;
    while k < loaded.normative_occurrences.len()
        invariant
            k <= loaded.normative_occurrences@.len(),
            normative_occurrences@.len() == k,
            forall|j: int| 0 <= j < k ==> {
                let (f, l, w) = #[trigger] normative_occurrences@[j];
                NormativeOccurrenceV { file: f@, line: l, keyword: w@ } == loaded.normative_occurrences@[j]@
            },
        decreases loaded.normative_occurrences@.len() - k,
    {
        let o = &loaded.normative_occurrences[k];
        normative_occurrences.push((o.file.clone(), o.line.0, owned(o.keyword)));
        k = k + 1;
    }
    let mut unregistered_definitions: Vec<(String, usize, String)> = Vec::new();
    let mut k: usize = 0;
    while k < loaded.unregistered_definitions.len()
        invariant
            k <= loaded.unregistered_definitions@.len(),
            unregistered_definitions@.len() == k,
            forall|j: int| 0 <= j < k ==> {
                let (f, l, id) = #[trigger] unregistered_definitions@[j];
                (f@, l, id@) == loaded.unregistered_definitions@[j]@
            },
        decreases loaded.unregistered_definitions@.len() - k,
    {
        let d = &loaded.unregistered_definitions[k];
        unregistered_definitions.push((d.file.clone(), d.line.0, d.id.clone()));
        k = k + 1;
    }
    RegisterInput { claims, documents, genres, orphan_claims, normative_occurrences, unregistered_definitions }
}

} // verus!
