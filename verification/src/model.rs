//! Core data types shared by extraction, the checks, the index, and
//! blast radius: claim fields, reference syntax, and the index shape.

use vstd::prelude::*;
use crate::extract::is_kebab;
use crate::text::{
    chars_of, char_is_alphanumeric, find_char, index_of_char, is_alphanumeric, is_digit, is_lower,
    lemma_find_char_from, lemma_find_char_from_unique, matches_at, owned, str_eq, string_of,
};

verus! {

/// A claim id: a bracketed kebab-case token, without the brackets.
pub type ClaimId = String;

/// A document identifier: the corpus-relative path with the `.md`
/// extension removed. Unique by construction — two files can share a
/// basename but never a path.
pub type DocPath = String;

/// The three permitted claim kinds.
#[derive(Debug, Clone, Copy, PartialEq, Eq, Structural)]
pub enum Kind {
    Requirement,
    Invariant,
    Constraint,
}

impl Kind {
    pub open spec fn spec_name(self) -> Seq<char> {
        match self {
            Kind::Requirement => "requirement"@,
            Kind::Invariant => "invariant"@,
            Kind::Constraint => "constraint"@,
        }
    }

    pub fn as_str(&self) -> (r: &'static str)
        ensures
            r@ == self.spec_name(),
    {
        match self {
            Kind::Requirement => "requirement",
            Kind::Invariant => "invariant",
            Kind::Constraint => "constraint",
        }
    }
}

/// Divio's four documentation quadrants — which question a genre's
/// documents answer. Orthogonal to `Kind`: `Kind` says what a single claim
/// asserts; the quadrant says what job the genre as a whole does.
#[derive(Debug, Clone, Copy, PartialEq, Eq, Structural)]
pub enum Quadrant {
    Tutorial,
    HowTo,
    Reference,
    Explanation,
}

impl Quadrant {
    pub open spec fn spec_name(self) -> Seq<char> {
        match self {
            Quadrant::Tutorial => "tutorial"@,
            Quadrant::HowTo => "how-to"@,
            Quadrant::Reference => "reference"@,
            Quadrant::Explanation => "explanation"@,
        }
    }

    pub fn as_str(&self) -> (r: &'static str)
        ensures
            r@ == self.spec_name(),
    {
        match self {
            Quadrant::Tutorial => "tutorial",
            Quadrant::HowTo => "how-to",
            Quadrant::Reference => "reference",
            Quadrant::Explanation => "explanation",
        }
    }
}

/// The permitted evaluator names. `Review` is a different evidence
/// species (a vouch) rather than a rung on the mechanical scale, and
/// `Absent` corroborates a literal's non-occurrence rather than a
/// behaviour's occurrence.
#[derive(Debug, Clone, Copy, PartialEq, Eq, Structural)]
pub enum Evaluator {
    Proof,
    ModelCheck,
    Type,
    PropertyTest,
    Test,
    Example,
    Absent,
    Review,
    /// `none`: not yet discharged — an honest, unimplemented state.
    Unimplemented,
}

/// The abstract value of a [`CiteRef`].
pub enum CiteRefV {
    Claim(Seq<char>),
    DocAnchor(Seq<char>, Seq<char>),
}

/// A `depends`/`because` entry: either a claim id or a document anchor.
#[derive(Debug, Clone, PartialEq, Eq)]
pub enum CiteRef {
    /// A bare kebab-case claim id, e.g. `lock-groundness`.
    Claim(ClaimId),
    /// `<doc-path>#<anchor>`, e.g. `docs/models/composition-model#6`.
    DocAnchor { path: DocPath, anchor: String },
}

impl View for CiteRef {
    type V = CiteRefV;

    open spec fn view(&self) -> CiteRefV {
        match self {
            CiteRef::Claim(id) => CiteRefV::Claim(id@),
            CiteRef::DocAnchor { path, anchor } => CiteRefV::DocAnchor(path@, anchor@),
        }
    }
}

/// The surface-syntax split shared by `depends`/`because` entries and
/// normalized prose link targets: everything before the first `#` is a
/// document path and everything after it the anchor; with no `#` the
/// whole entry is a claim id.
pub open spec fn spec_parse_ref(raw: Seq<char>) -> CiteRefV {
    let i = find_char(raw, '#');
    if i < raw.len() {
        CiteRefV::DocAnchor(raw.take(i), raw.skip(i + 1))
    } else {
        CiteRefV::Claim(raw)
    }
}

/// The canonical string of a reference: a bare id, or `path#anchor`.
pub open spec fn spec_ref_string(r: CiteRefV) -> Seq<char> {
    match r {
        CiteRefV::Claim(id) => id,
        CiteRefV::DocAnchor(path, anchor) => path + seq!['#'] + anchor,
    }
}

impl CiteRef {
    /// A field-by-field copy, with the same abstract value.
    pub fn copy(&self) -> (r: CiteRef)
        ensures
            r@ == self@,
    {
        match self {
            CiteRef::Claim(id) => CiteRef::Claim(id.clone()),
            CiteRef::DocAnchor { path, anchor } => CiteRef::DocAnchor {
                path: path.clone(),
                anchor: anchor.clone(),
            },
        }
    }

    /// Parse the `<doc-path>#<anchor>` / bare-id surface syntax. A pure
    /// split, not a resolution.
    pub fn parse(raw: &str) -> (r: CiteRef)
        ensures
            r@ == spec_parse_ref(raw@),
    {
        let v = chars_of(raw);
        let i = index_of_char(&v, '#', 0);
        if i < v.len() {
            CiteRef::DocAnchor { path: string_of(&v, 0, i), anchor: string_of(&v, i + 1, v.len()) }
        } else {
            CiteRef::Claim(owned(raw))
        }
    }

    /// The canonical string: a bare id for a claim, `path#anchor` for a
    /// document anchor.
    pub fn to_string(&self) -> (r: String)
        ensures
            r@ == spec_ref_string(self@),
    {
        match self {
            CiteRef::Claim(id) => id.clone(),
            CiteRef::DocAnchor { path, anchor } => {
                let mut s = path.clone();
                s.append("#");
                s.append(anchor.as_str());
                proof {
                    reveal_strlit("#");
                }
                s
            },
        }
    }
}

/// Parsing then printing a reference gives back exactly the text it was
/// parsed from.
pub proof fn lemma_ref_string_of_parse(raw: Seq<char>)
    ensures
        spec_ref_string(spec_parse_ref(raw)) == raw,
{
    let i = find_char(raw, '#');
    lemma_find_char_from(raw, '#', 0);
    if i < raw.len() {
        assert(raw.take(i) + seq!['#'] + raw.skip(i + 1) =~= raw);
    }
}

/// Claim ids and document anchors never collide: the text of a reference
/// is a kebab-case id exactly when the reference is that claim id, since
/// an anchor's text always holds a `#`.
pub proof fn lemma_anchor_never_names_a_claim(r: CiteRefV, id: Seq<char>)
    requires
        is_kebab(id),
    ensures
        spec_ref_string(r) == id <==> r == CiteRefV::Claim(id),
{
    if let CiteRefV::DocAnchor(path, anchor) = r {
        let s = spec_ref_string(r);
        assert(s[path.len() as int] == '#');
        if s == id {
            assert(is_lower(id[path.len() as int]) || is_digit(id[path.len() as int]) || id[path.len() as int] == '-');
        }
    }
}

/// Printing then parsing a reference gives it back, for every reference
/// whose own parts cannot be mistaken for the separator: a claim id with
/// no `#` in it, or a document path with no `#` in it.
pub proof fn lemma_parse_of_ref_string(r: CiteRefV)
    requires
        match r {
            CiteRefV::Claim(id) => !id.contains('#'),
            CiteRefV::DocAnchor(path, _) => !path.contains('#'),
        },
    ensures
        spec_parse_ref(spec_ref_string(r)) == r,
{
    let s = spec_ref_string(r);
    match r {
        CiteRefV::Claim(id) => {
            lemma_find_char_from(s, '#', 0);
            let i = find_char(s, '#');
            if i < s.len() {
                assert(id.contains('#') ) by { assert(id[i] == '#'); }
            }
        },
        CiteRefV::DocAnchor(path, anchor) => {
            assert forall|k: int| 0 <= k < path.len() implies s[k] != '#' by {
                if s[k] == '#' { assert(path[k] == '#'); }
            }
            lemma_find_char_from_unique(s, '#', 0, path.len() as int);
            assert(s.take(path.len() as int) =~= path);
            assert(s.skip(path.len() as int + 1) =~= anchor);
        },
    }
}

/// The two reference kinds. A **bare** reference is, by design, not a
/// value of this type at all: it is an undeclared prose link, so it has
/// no field to populate and no edge in the citation graph.
#[derive(Debug, Clone, Copy, PartialEq, Eq, Structural)]
pub enum RefKind {
    /// The claim's truth or meaning requires the target.
    Depends,
    /// The claim's justification is the target.
    Because,
}

impl RefKind {
    pub open spec fn spec_name(self) -> Seq<char> {
        match self {
            RefKind::Depends => "depends"@,
            RefKind::Because => "because"@,
        }
    }

    pub fn as_str(&self) -> (r: &'static str)
        ensures
            r@ == self.spec_name(),
    {
        match self {
            RefKind::Depends => "depends",
            RefKind::Because => "because",
        }
    }
}

/// A 1-indexed source location within a single file.
#[derive(Debug, Clone, Copy, PartialEq, Eq, Structural)]
pub struct Line(pub usize);

/// An anchor `a` matches a heading iff the heading's text begins with
/// `a` followed by either end-of-text or a non-alphanumeric character:
/// `6` matches `"6. The fact-set"` but not `"60. ..."`.
pub open spec fn spec_anchor_matches(heading_text: Seq<char>, anchor: Seq<char>) -> bool {
    &&& anchor.len() <= heading_text.len()
    &&& heading_text.take(anchor.len() as int) == anchor
    &&& (heading_text.len() == anchor.len() || !is_alphanumeric(heading_text[anchor.len() as int]))
}

/// Whether `anchor` addresses the heading whose text is `heading_text`
/// (number-based, not slug-based).
pub fn anchor_matches(heading_text: &str, anchor: &str) -> (r: bool)
    ensures
        r == spec_anchor_matches(heading_text@, anchor@),
{
    let h = chars_of(heading_text);
    let a = chars_of(anchor);
    if a.len() > h.len() {
        return false;
    }
    if !matches_at(&h, &a, 0) {
        proof {
            assert(h@.subrange(0, a@.len() as int) =~= h@.take(a@.len() as int));
        }
        return false;
    }
    proof {
        assert(h@.subrange(0, a@.len() as int) =~= h@.take(a@.len() as int));
    }
    if a.len() == h.len() {
        true
    } else {
        !char_is_alphanumeric(h[a.len()])
    }
}

/// The abstract value of a [`RawClaimBlock`].
pub struct RawClaimBlockV {
    pub yaml: Seq<char>,
    pub kind: Option<Seq<char>>,
    pub evaluator: Option<Seq<char>>,
    pub depends: Seq<Seq<char>>,
    pub because: Seq<Seq<char>>,
}

/// A claim block's YAML, verbatim, plus a best-effort structured view of
/// the fields the rest of the crate reads. Absence of a field here does
/// not imply the block is invalid — validation is the contract's job.
#[derive(Debug, Clone, PartialEq, Eq)]
pub struct RawClaimBlock {
    pub yaml: String,
    pub kind: Option<String>,
    pub evaluator: Option<String>,
    pub depends: Vec<String>,
    pub because: Vec<String>,
}

impl View for RawClaimBlock {
    type V = RawClaimBlockV;

    open spec fn view(&self) -> RawClaimBlockV {
        RawClaimBlockV {
            yaml: self.yaml@,
            kind: self.kind.deep_view(),
            evaluator: self.evaluator.deep_view(),
            depends: self.depends.deep_view(),
            because: self.because.deep_view(),
        }
    }
}

/// The abstract value of a sequence of references.
pub open spec fn refs_view(v: Seq<CiteRef>) -> Seq<CiteRefV> {
    v.map_values(|c: CiteRef| c@)
}

/// The abstract value of a [`Claim`].
pub struct ClaimV {
    pub id: Seq<char>,
    pub file: Seq<char>,
    pub heading_line: usize,
    pub block_line: usize,
    pub raw: RawClaimBlockV,
    pub depends: Seq<CiteRefV>,
    pub because: Seq<CiteRefV>,
    pub prose_links: Seq<Seq<char>>,
    pub prose_code: Seq<Seq<char>>,
}

/// A claim as extracted from the corpus, before any check has run.
#[derive(Debug, Clone, PartialEq, Eq)]
pub struct Claim {
    pub id: ClaimId,
    pub file: String,
    /// Line of the id's definition.
    pub heading_line: Line,
    /// Line of the opening claim fence.
    pub block_line: Line,
    pub raw: RawClaimBlock,
    /// `depends` entries, parsed with [`CiteRef::parse`].
    pub depends: Vec<CiteRef>,
    /// `because` entries, parsed with [`CiteRef::parse`].
    pub because: Vec<CiteRef>,
    /// Raw link targets in the claim's prose scope, external URLs
    /// excluded.
    pub prose_links: Vec<String>,
    /// Inline code span text in the claim's prose scope.
    pub prose_code: Vec<String>,
}

impl View for Claim {
    type V = ClaimV;

    open spec fn view(&self) -> ClaimV {
        ClaimV {
            id: self.id@,
            file: self.file@,
            heading_line: self.heading_line.0,
            block_line: self.block_line.0,
            raw: self.raw@,
            depends: refs_view(self.depends@),
            because: refs_view(self.because@),
            prose_links: self.prose_links.deep_view(),
            prose_code: self.prose_code.deep_view(),
        }
    }
}

/// Every declared reference of a claim, kind attached: the `depends`
/// entries in order, then the `because` entries in order.
pub open spec fn spec_refs(c: ClaimV) -> Seq<(RefKind, CiteRefV)> {
    c.depends.map_values(|r: CiteRefV| (RefKind::Depends, r)) + c.because.map_values(
        |r: CiteRefV| (RefKind::Because, r),
    )
}

impl Claim {
    /// Every reference this claim declares, kind attached — the union
    /// `depends ∪ because` that forms the edges of the citation graph. A
    /// bare prose link never appears here.
    pub fn refs(&self) -> (r: Vec<(RefKind, CiteRef)>)
        ensures
            r@.map_values(|p: (RefKind, CiteRef)| (p.0, p.1@)) == spec_refs(self@),
    {
        let mut out: Vec<(RefKind, CiteRef)> = Vec::new();
        let mut i: usize = 0;
        while i < self.depends.len()
            invariant
                i <= self.depends@.len(),
                out@.len() == i,
                forall|k: int| 0 <= k < i ==> #[trigger] out@[k].0 == RefKind::Depends
                    && out@[k].1@ == self.depends@[k]@,
            decreases self.depends@.len() - i,
        {
            out.push((RefKind::Depends, self.depends[i].copy()));
            i = i + 1;
        }
        let mut j: usize = 0;
        while j < self.because.len()
            invariant
                j <= self.because@.len(),
                out@.len() == self.depends@.len() + j,
                forall|k: int| 0 <= k < self.depends@.len() ==> #[trigger] out@[k].0 == RefKind::Depends
                    && out@[k].1@ == self.depends@[k]@,
                forall|k: int| 0 <= k < j ==> #[trigger] out@[self.depends@.len() + k].0 == RefKind::Because
                    && out@[self.depends@.len() + k].1@ == self.because@[k]@,
            decreases self.because@.len() - j,
        {
            out.push((RefKind::Because, self.because[j].copy()));
            j = j + 1;
        }
        proof {
            let lhs = out@.map_values(|p: (RefKind, CiteRef)| (p.0, p.1@));
            let rhs = spec_refs(self@);
            assert forall|k: int| 0 <= k < lhs.len() implies lhs[k] == rhs[k] by {
                if k < self.depends@.len() {
                } else {
                    let m = k - self.depends@.len();
                    assert(out@[self.depends@.len() + m].0 == RefKind::Because);
                }
            }
            assert(lhs =~= rhs);
        }
        out
    }
}

/// The abstract value of a [`Heading`].
pub struct HeadingV {
    pub level: u8,
    pub text: Seq<char>,
    pub line: usize,
    pub slug: Seq<char>,
}

/// A heading found in a scanned document, kept for anchor resolution.
/// `text` is already stripped of `#` markers and surrounding whitespace;
/// `slug` is the GitHub-style anchor (see [`heading_slug`]), deduplicated
/// per document.
#[derive(Debug, Clone, PartialEq, Eq)]
pub struct Heading {
    pub level: u8,
    pub text: String,
    pub line: Line,
    pub slug: String,
}

impl View for Heading {
    type V = HeadingV;

    open spec fn view(&self) -> HeadingV {
        HeadingV { level: self.level, text: self.text@, line: self.line.0, slug: self.slug@ }
    }
}

/// The abstract value of a [`Document`].
pub struct DocumentV {
    pub doc_path: Seq<char>,
    pub file: Seq<char>,
    pub genre_path: Seq<char>,
    pub headings: Seq<HeadingV>,
}

/// A scanned document (one that matched a genre).
#[derive(Debug, Clone, PartialEq, Eq)]
pub struct Document {
    /// The identifier other claims cite by: `file` without `.md`.
    pub doc_path: DocPath,
    pub file: String,
    pub genre_path: String,
    pub headings: Vec<Heading>,
}

impl View for Document {
    type V = DocumentV;

    open spec fn view(&self) -> DocumentV {
        DocumentV {
            doc_path: self.doc_path@,
            file: self.file@,
            genre_path: self.genre_path@,
            headings: self.headings@.map_values(|h: Heading| h@),
        }
    }
}

/// The abstract value of a [`Corpus`].
pub struct CorpusV {
    pub claims: Seq<ClaimV>,
    pub documents: Seq<DocumentV>,
}

/// Every claim and every scanned document of a corpus, prior to any
/// check.
#[derive(Debug, Clone)]
pub struct Corpus {
    pub claims: Vec<Claim>,
    pub documents: Vec<Document>,
}

impl View for Corpus {
    type V = CorpusV;

    open spec fn view(&self) -> CorpusV {
        CorpusV {
            claims: self.claims@.map_values(|c: Claim| c@),
            documents: self.documents@.map_values(|d: Document| d@),
        }
    }
}

impl Corpus {
    /// The empty corpus.
    pub fn new() -> (r: Corpus)
        ensures
            r@.claims.len() == 0,
            r@.documents.len() == 0,
    {
        Corpus { claims: Vec::new(), documents: Vec::new() }
    }
}

/// One claim's row in the index.
#[derive(Debug, Clone, PartialEq, Eq)]
pub struct IndexClaim {
    pub file: String,
    pub line: usize,
    pub kind: String,
    pub evaluator: String,
    pub depends: Vec<String>,
    pub because: Vec<String>,
}

/// One document's row in the index.
#[derive(Debug, Clone, PartialEq, Eq)]
pub struct IndexDocument {
    pub file: String,
    pub genre: String,
}

/// The index: a pure projection of the corpus, never committed — claims
/// keyed by id and documents keyed by document path, each in ascending
/// key order.
#[derive(Debug, Clone, PartialEq, Eq)]
pub struct Index {
    pub claims: Vec<(ClaimId, IndexClaim)>,
    pub documents: Vec<(DocPath, IndexDocument)>,
}


// --- heading slugs ------------------------------------------------------------

/// The Unicode combining-mark codepoints (general categories Mn, Mc and
/// Me), as sorted, non-overlapping inclusive ranges.
pub const COMBINING_MARK_RANGES: [(u32, u32); 319] = [
    (0x300, 0x36F),
    (0x483, 0x489),
    (0x591, 0x5BD),
    (0x5BF, 0x5BF),
    (0x5C1, 0x5C2),
    (0x5C4, 0x5C5),
    (0x5C7, 0x5C7),
    (0x610, 0x61A),
    (0x64B, 0x65F),
    (0x670, 0x670),
    (0x6D6, 0x6DC),
    (0x6DF, 0x6E4),
    (0x6E7, 0x6E8),
    (0x6EA, 0x6ED),
    (0x711, 0x711),
    (0x730, 0x74A),
    (0x7A6, 0x7B0),
    (0x7EB, 0x7F3),
    (0x7FD, 0x7FD),
    (0x816, 0x819),
    (0x81B, 0x823),
    (0x825, 0x827),
    (0x829, 0x82D),
    (0x859, 0x85B),
    (0x898, 0x89F),
    (0x8CA, 0x8E1),
    (0x8E3, 0x903),
    (0x93A, 0x93C),
    (0x93E, 0x94F),
    (0x951, 0x957),
    (0x962, 0x963),
    (0x981, 0x983),
    (0x9BC, 0x9BC),
    (0x9BE, 0x9C4),
    (0x9C7, 0x9C8),
    (0x9CB, 0x9CD),
    (0x9D7, 0x9D7),
    (0x9E2, 0x9E3),
    (0x9FE, 0x9FE),
    (0xA01, 0xA03),
    (0xA3C, 0xA3C),
    (0xA3E, 0xA42),
    (0xA47, 0xA48),
    (0xA4B, 0xA4D),
    (0xA51, 0xA51),
    (0xA70, 0xA71),
    (0xA75, 0xA75),
    (0xA81, 0xA83),
    (0xABC, 0xABC),
    (0xABE, 0xAC5),
    (0xAC7, 0xAC9),
    (0xACB, 0xACD),
    (0xAE2, 0xAE3),
    (0xAFA, 0xAFF),
    (0xB01, 0xB03),
    (0xB3C, 0xB3C),
    (0xB3E, 0xB44),
    (0xB47, 0xB48),
    (0xB4B, 0xB4D),
    (0xB55, 0xB57),
    (0xB62, 0xB63),
    (0xB82, 0xB82),
    (0xBBE, 0xBC2),
    (0xBC6, 0xBC8),
    (0xBCA, 0xBCD),
    (0xBD7, 0xBD7),
    (0xC00, 0xC04),
    (0xC3C, 0xC3C),
    (0xC3E, 0xC44),
    (0xC46, 0xC48),
    (0xC4A, 0xC4D),
    (0xC55, 0xC56),
    (0xC62, 0xC63),
    (0xC81, 0xC83),
    (0xCBC, 0xCBC),
    (0xCBE, 0xCC4),
    (0xCC6, 0xCC8),
    (0xCCA, 0xCCD),
    (0xCD5, 0xCD6),
    (0xCE2, 0xCE3),
    (0xCF3, 0xCF3),
    (0xD00, 0xD03),
    (0xD3B, 0xD3C),
    (0xD3E, 0xD44),
    (0xD46, 0xD48),
    (0xD4A, 0xD4D),
    (0xD57, 0xD57),
    (0xD62, 0xD63),
    (0xD81, 0xD83),
    (0xDCA, 0xDCA),
    (0xDCF, 0xDD4),
    (0xDD6, 0xDD6),
    (0xDD8, 0xDDF),
    (0xDF2, 0xDF3),
    (0xE31, 0xE31),
    (0xE34, 0xE3A),
    (0xE47, 0xE4E),
    (0xEB1, 0xEB1),
    (0xEB4, 0xEBC),
    (0xEC8, 0xECE),
    (0xF18, 0xF19),
    (0xF35, 0xF35),
    (0xF37, 0xF37),
    (0xF39, 0xF39),
    (0xF3E, 0xF3F),
    (0xF71, 0xF84),
    (0xF86, 0xF87),
    (0xF8D, 0xF97),
    (0xF99, 0xFBC),
    (0xFC6, 0xFC6),
    (0x102B, 0x103E),
    (0x1056, 0x1059),
    (0x105E, 0x1060),
    (0x1062, 0x1064),
    (0x1067, 0x106D),
    (0x1071, 0x1074),
    (0x1082, 0x108D),
    (0x108F, 0x108F),
    (0x109A, 0x109D),
    (0x135D, 0x135F),
    (0x1712, 0x1715),
    (0x1732, 0x1734),
    (0x1752, 0x1753),
    (0x1772, 0x1773),
    (0x17B4, 0x17D3),
    (0x17DD, 0x17DD),
    (0x180B, 0x180D),
    (0x180F, 0x180F),
    (0x1885, 0x1886),
    (0x18A9, 0x18A9),
    (0x1920, 0x193B),
    (0x1A17, 0x1A1B),
    (0x1A55, 0x1A5E),
    (0x1A60, 0x1A7C),
    (0x1A7F, 0x1A7F),
    (0x1AB0, 0x1ACE),
    (0x1B00, 0x1B04),
    (0x1B34, 0x1B44),
    (0x1B6B, 0x1B73),
    (0x1B80, 0x1B82),
    (0x1BA1, 0x1BAD),
    (0x1BE6, 0x1BF3),
    (0x1C24, 0x1C37),
    (0x1CD0, 0x1CD2),
    (0x1CD4, 0x1CE8),
    (0x1CED, 0x1CED),
    (0x1CF4, 0x1CF4),
    (0x1CF7, 0x1CF9),
    (0x1DC0, 0x1DFF),
    (0x20D0, 0x20F0),
    (0x2CEF, 0x2CF1),
    (0x2D7F, 0x2D7F),
    (0x2DE0, 0x2DFF),
    (0x302A, 0x302F),
    (0x3099, 0x309A),
    (0xA66F, 0xA672),
    (0xA674, 0xA67D),
    (0xA69E, 0xA69F),
    (0xA6F0, 0xA6F1),
    (0xA802, 0xA802),
    (0xA806, 0xA806),
    (0xA80B, 0xA80B),
    (0xA823, 0xA827),
    (0xA82C, 0xA82C),
    (0xA880, 0xA881),
    (0xA8B4, 0xA8C5),
    (0xA8E0, 0xA8F1),
    (0xA8FF, 0xA8FF),
    (0xA926, 0xA92D),
    (0xA947, 0xA953),
    (0xA980, 0xA983),
    (0xA9B3, 0xA9C0),
    (0xA9E5, 0xA9E5),
    (0xAA29, 0xAA36),
    (0xAA43, 0xAA43),
    (0xAA4C, 0xAA4D),
    (0xAA7B, 0xAA7D),
    (0xAAB0, 0xAAB0),
    (0xAAB2, 0xAAB4),
    (0xAAB7, 0xAAB8),
    (0xAABE, 0xAABF),
    (0xAAC1, 0xAAC1),
    (0xAAEB, 0xAAEF),
    (0xAAF5, 0xAAF6),
    (0xABE3, 0xABEA),
    (0xABED, 0xABED),
    (0xFB1E, 0xFB1E),
    (0xFE00, 0xFE0F),
    (0xFE20, 0xFE2F),
    (0x101FD, 0x101FD),
    (0x102E0, 0x102E0),
    (0x10376, 0x1037A),
    (0x10A01, 0x10A03),
    (0x10A05, 0x10A06),
    (0x10A0C, 0x10A0F),
    (0x10A38, 0x10A3A),
    (0x10A3F, 0x10A3F),
    (0x10AE5, 0x10AE6),
    (0x10D24, 0x10D27),
    (0x10D69, 0x10D6D),
    (0x10EAB, 0x10EAC),
    (0x10EFD, 0x10EFF),
    (0x10F46, 0x10F50),
    (0x10F82, 0x10F85),
    (0x11000, 0x11002),
    (0x11038, 0x11046),
    (0x11070, 0x11070),
    (0x11073, 0x11074),
    (0x1107F, 0x11082),
    (0x110B0, 0x110BA),
    (0x110C2, 0x110C2),
    (0x11100, 0x11102),
    (0x11127, 0x11134),
    (0x11145, 0x11146),
    (0x11173, 0x11173),
    (0x11180, 0x11182),
    (0x111B3, 0x111C0),
    (0x111C9, 0x111CC),
    (0x111CE, 0x111CF),
    (0x1122C, 0x11237),
    (0x1123E, 0x1123E),
    (0x11241, 0x11241),
    (0x112DF, 0x112EA),
    (0x11300, 0x11303),
    (0x1133B, 0x1133C),
    (0x1133E, 0x11344),
    (0x11347, 0x11348),
    (0x1134B, 0x1134D),
    (0x11357, 0x11357),
    (0x11362, 0x11363),
    (0x11366, 0x1136C),
    (0x11370, 0x11374),
    (0x113B8, 0x113C0),
    (0x113C2, 0x113C2),
    (0x113C5, 0x113C5),
    (0x113C7, 0x113CA),
    (0x113CC, 0x113D0),
    (0x113D2, 0x113D2),
    (0x113E1, 0x113E2),
    (0x11435, 0x11446),
    (0x1145E, 0x1145E),
    (0x114B0, 0x114C3),
    (0x115AF, 0x115B5),
    (0x115B8, 0x115C0),
    (0x115DC, 0x115DD),
    (0x11630, 0x11640),
    (0x116AB, 0x116B7),
    (0x1171D, 0x1172B),
    (0x1182C, 0x1183A),
    (0x11930, 0x11935),
    (0x11937, 0x11938),
    (0x1193B, 0x1193E),
    (0x11940, 0x11940),
    (0x11942, 0x11943),
    (0x119D1, 0x119D7),
    (0x119DA, 0x119E0),
    (0x119E4, 0x119E4),
    (0x11A01, 0x11A0A),
    (0x11A33, 0x11A39),
    (0x11A3B, 0x11A3E),
    (0x11A47, 0x11A47),
    (0x11A51, 0x11A5B),
    (0x11A8A, 0x11A99),
    (0x11C2F, 0x11C36),
    (0x11C38, 0x11C3F),
    (0x11C92, 0x11CA7),
    (0x11CA9, 0x11CB6),
    (0x11D31, 0x11D36),
    (0x11D3A, 0x11D3A),
    (0x11D3C, 0x11D3D),
    (0x11D3F, 0x11D45),
    (0x11D47, 0x11D47),
    (0x11D8A, 0x11D8E),
    (0x11D90, 0x11D91),
    (0x11D93, 0x11D97),
    (0x11EF3, 0x11EF6),
    (0x11F00, 0x11F01),
    (0x11F03, 0x11F03),
    (0x11F34, 0x11F42),
    (0x11F5A, 0x11F5A),
    (0x13440, 0x13440),
    (0x13447, 0x13455),
    (0x1611E, 0x1612F),
    (0x16AF0, 0x16AF4),
    (0x16B30, 0x16B36),
    (0x16F4F, 0x16F4F),
    (0x16F51, 0x16F87),
    (0x16F8F, 0x16F92),
    (0x16FE4, 0x16FE4),
    (0x16FF0, 0x16FF1),
    (0x1BC9D, 0x1BC9E),
    (0x1CF00, 0x1CF2D),
    (0x1CF30, 0x1CF46),
    (0x1D165, 0x1D169),
    (0x1D16D, 0x1D172),
    (0x1D17B, 0x1D182),
    (0x1D185, 0x1D18B),
    (0x1D1AA, 0x1D1AD),
    (0x1D242, 0x1D244),
    (0x1DA00, 0x1DA36),
    (0x1DA3B, 0x1DA6C),
    (0x1DA75, 0x1DA75),
    (0x1DA84, 0x1DA84),
    (0x1DA9B, 0x1DA9F),
    (0x1DAA1, 0x1DAAF),
    (0x1E000, 0x1E006),
    (0x1E008, 0x1E018),
    (0x1E01B, 0x1E021),
    (0x1E023, 0x1E024),
    (0x1E026, 0x1E02A),
    (0x1E08F, 0x1E08F),
    (0x1E130, 0x1E136),
    (0x1E2AE, 0x1E2AE),
    (0x1E2EC, 0x1E2EF),
    (0x1E4EC, 0x1E4EF),
    (0x1E5EE, 0x1E5EF),
    (0x1E8D0, 0x1E8D6),
    (0x1E944, 0x1E94A),
    (0xE0100, 0xE01EF),
];

/// Whether `c` is a combining mark: inside one of
/// [`COMBINING_MARK_RANGES`].
pub open spec fn spec_is_combining_mark(c: char) -> bool {
    exists|i: int| 0 <= i < 319 && #[trigger] COMBINING_MARK_RANGES[i].0 <= (c as u32) <= COMBINING_MARK_RANGES[i].1
}

pub fn is_combining_mark(c: char) -> (r: bool)
    ensures
        r == spec_is_combining_mark(c),
{
    let cp = c as u32;
    let mut i: usize = 0;
    while i < 319
        invariant
            i <= 319,
            cp == c as u32,
            forall|k: int| 0 <= k < i ==> !(#[trigger] COMBINING_MARK_RANGES[k].0 <= (c as u32) <= COMBINING_MARK_RANGES[k].1),
        decreases 319 - i,
    {
        let (lo, hi) = COMBINING_MARK_RANGES[i];
        if lo <= cp && cp <= hi {
            return true;
        }
        i = i + 1;
    }
    false
}

/// `str::to_lowercase`: each character's Unicode lowercase mapping
/// (context-sensitive only for a word-final capital sigma), a function of
/// the text alone.
pub uninterp spec fn lowercase(s: Seq<char>) -> Seq<char>;

/// Calls `str::to_lowercase`. The result is named `lowercase`; nothing
/// more is claimed of it.
#[verifier::external_body]
pub(crate) fn to_lowercase(s: &str) -> (r: String)
    ensures
        r@ == lowercase(s@),
{
    s.to_lowercase()
}

/// Whether a slug keeps `c` (after lowercasing).
pub open spec fn slug_keeps(c: char) -> bool {
    c == ' ' || c == '-' || c == '_' || is_alphanumeric(c) || spec_is_combining_mark(c)
}

/// The slug of the first `n` (already lowercased) characters of `s`:
/// every kept character, each space turned into a hyphen.
pub open spec fn slug_chars(s: Seq<char>, n: int) -> Seq<char>
    decreases n,
{
    if n <= 0 {
        Seq::empty()
    } else {
        slug_chars(s, n - 1) + if slug_keeps(s[n - 1]) {
            seq![if s[n - 1] == ' ' { '-' } else { s[n - 1] }]
        } else {
            Seq::empty()
        }
    }
}

pub open spec fn spec_heading_slug(text: Seq<char>) -> Seq<char> {
    slug_chars(lowercase(text), lowercase(text).len() as int)
}

proof fn lemma_slug_chars_no_space(s: Seq<char>, n: int)
    ensures
        !slug_chars(s, n).contains(' '),
    decreases n,
{
    if n > 0 {
        lemma_slug_chars_no_space(s, n - 1);
        let prev = slug_chars(s, n - 1);
        let tail = if slug_keeps(s[n - 1]) {
            seq![if s[n - 1] == ' ' { '-' } else { s[n - 1] }]
        } else {
            Seq::empty()
        };
        assert forall|k: int| 0 <= k < slug_chars(s, n).len() implies slug_chars(s, n)[k] != ' ' by {
            if k < prev.len() {
                assert(prev[k] == slug_chars(s, n)[k]);
            }
        }
    }
}

/// The slug of already-lowercased text: drop every character that is
/// neither a Unicode letter, digit or combining mark nor a space, hyphen
/// or underscore (dropped outright, never replaced), then turn each
/// surviving space into a hyphen (consecutive spaces give consecutive
/// hyphens).
pub fn slug_of_lowercase(lower: &str) -> (r: String)
    ensures
        r@ == slug_chars(lower@, lower@.len() as int),
        !r@.contains(' '),
{
    let v = chars_of(lower);
    let mut out: Vec<char> = Vec::new();
    let mut i: usize = 0;
    while i < v.len()
        invariant
            i <= v@.len(),
            v@ == lower@,
            out@ == slug_chars(v@, i as int),
        decreases v@.len() - i,
    {
        let c = v[i];
        let keep = c == ' ' || c == '-' || c == '_' || char_is_alphanumeric(c) || is_combining_mark(c);
        if keep {
            out.push(if c == ' ' { '-' } else { c });
        }
        proof {
            assert(out@ =~= slug_chars(v@, i + 1));
        }
        i = i + 1;
    }
    proof { lemma_slug_chars_no_space(v@, v@.len() as int); }
    string_of(&out, 0, out.len())
}

/// A GitHub-style heading anchor: lowercase, then [`slug_of_lowercase`].
/// No deduplication: see [`assign_heading_slugs`].
pub fn heading_slug(text: &str) -> (r: String)
    ensures
        r@ == spec_heading_slug(text@),
        !r@.contains(' '),
{
    let lower = to_lowercase(text);
    slug_of_lowercase(lower.as_str())
}

/// How many times `c` occurs in `s`.
pub open spec fn count_char(s: Seq<char>, c: char) -> nat
    decreases s.len(),
{
    if s.len() == 0 {
        0
    } else {
        count_char(s.drop_last(), c) + if s.last() == c { 1nat } else { 0nat }
    }
}

proof fn lemma_count_char_add(a: Seq<char>, b: Seq<char>, c: char)
    ensures
        count_char(a + b, c) == count_char(a, c) + count_char(b, c),
    decreases b.len(),
{
    if b.len() == 0 {
        assert(a + b =~= a);
    } else {
        lemma_count_char_add(a, b.drop_last(), c);
        assert((a + b).drop_last() =~= a + b.drop_last());
    }
}

proof fn lemma_slug_chars_kept(s: Seq<char>, n: int)
    ensures
        forall|k: int| 0 <= k < slug_chars(s, n).len() ==> slug_keeps(#[trigger] slug_chars(s, n)[k]) && slug_chars(s, n)[k] != ' ',
    decreases n,
{
    if n > 0 {
        lemma_slug_chars_kept(s, n - 1);
        let prev = slug_chars(s, n - 1);
        assert forall|k: int| 0 <= k < slug_chars(s, n).len() implies slug_keeps(#[trigger] slug_chars(s, n)[k]) && slug_chars(s, n)[k] != ' ' by {
            if k < prev.len() {
                assert(slug_chars(s, n)[k] == prev[k]);
            }
        }
    }
}

proof fn lemma_slug_chars_of_slug(t: Seq<char>, m: int)
    requires
        0 <= m <= t.len(),
        forall|k: int| 0 <= k < t.len() ==> slug_keeps(#[trigger] t[k]) && t[k] != ' ',
    ensures
        slug_chars(t, m) == t.take(m),
    decreases m,
{
    if m > 0 {
        lemma_slug_chars_of_slug(t, m - 1);
        assert(t.take(m) =~= t.take(m - 1).push(t[m - 1]));
        assert(slug_keeps(t[m - 1]) && t[m - 1] != ' ');
    } else {
        assert(t.take(0) =~= Seq::<char>::empty());
    }
}

/// Slugging already-lowercased text twice gives what slugging it once
/// gives: a slug is its own slug.
pub proof fn lemma_slug_idempotent(s: Seq<char>)
    ensures
        slug_chars(slug_chars(s, s.len() as int), slug_chars(s, s.len() as int).len() as int) == slug_chars(s, s.len() as int),
{
    let t = slug_chars(s, s.len() as int);
    lemma_slug_chars_kept(s, s.len() as int);
    lemma_slug_chars_of_slug(t, t.len() as int);
    assert(t.take(t.len() as int) =~= t);
}

/// A slug of already-lowercased text has one hyphen for each space and
/// each hyphen of the text, and no space.
pub proof fn lemma_slug_hyphens(s: Seq<char>, n: int)
    requires
        0 <= n <= s.len(),
    ensures
        count_char(slug_chars(s, n), '-') == count_char(s.take(n), ' ') + count_char(s.take(n), '-'),
        count_char(slug_chars(s, n), ' ') == 0,
    decreases n,
{
    if n == 0 {
        assert(s.take(0) =~= Seq::<char>::empty());
    } else {
        lemma_slug_hyphens(s, n - 1);
        let c = s[n - 1];
        let tail = if slug_keeps(c) { seq![if c == ' ' { '-' } else { c }] } else { Seq::<char>::empty() };
        lemma_count_char_add(slug_chars(s, n - 1), tail, '-');
        lemma_count_char_add(slug_chars(s, n - 1), tail, ' ');
        assert(s.take(n).drop_last() =~= s.take(n - 1));
        assert(count_char(Seq::<char>::empty(), '-') == 0);
        assert(count_char(Seq::<char>::empty(), ' ') == 0);
        if slug_keeps(c) {
            assert(tail.drop_last() =~= Seq::<char>::empty());
            assert(count_char(tail, '-') == count_char(tail.drop_last(), '-') + if tail.last() == '-' { 1nat } else { 0nat });
            assert(count_char(tail, ' ') == count_char(tail.drop_last(), ' ') + if tail.last() == ' ' { 1nat } else { 0nat });
        } else {
            assert(tail =~= Seq::<char>::empty());
        }
        assert(count_char(tail, '-') == if c == ' ' || c == '-' { 1nat } else { 0nat });
        assert(count_char(tail, ' ') == 0);
    }
}

// --- slug deduplication ------------------------------------------------------

/// The ASCII digit for `d < 10`.
pub open spec fn digit_char(d: nat) -> char {
    if d == 0 { '0' } else if d == 1 { '1' } else if d == 2 { '2' } else if d == 3 { '3' }
    else if d == 4 { '4' } else if d == 5 { '5' } else if d == 6 { '6' } else if d == 7 { '7' }
    else if d == 8 { '8' } else { '9' }
}

/// `n` in decimal, without leading zeros.
pub open spec fn spec_decimal(n: nat) -> Seq<char>
    decreases n,
{
    if n < 10 {
        seq![digit_char(n)]
    } else {
        spec_decimal(n / 10).push(digit_char(n % 10))
    }
}

proof fn lemma_decimal_len(n: nat)
    ensures
        spec_decimal(n).len() >= 1,
        n >= 10 ==> spec_decimal(n).len() >= 2,
    decreases n,
{
    if n >= 10 {
        lemma_decimal_len(n / 10);
    }
}

/// Different numbers print differently.
pub proof fn lemma_decimal_injective(a: nat, b: nat)
    requires
        spec_decimal(a) == spec_decimal(b),
    ensures
        a == b,
    decreases a,
{
    lemma_decimal_len(a);
    lemma_decimal_len(b);
    if a < 10 && b < 10 {
        assert(spec_decimal(a) == seq![digit_char(a)]);
        assert(spec_decimal(b) == seq![digit_char(b)]);
        assert(seq![digit_char(a)][0] == digit_char(a));
        assert(seq![digit_char(b)][0] == digit_char(b));
        assert(digit_char(a) == digit_char(b));
    } else if a >= 10 && b >= 10 {
        let da = spec_decimal(a);
        let db = spec_decimal(b);
        assert(da.last() == db.last());
        assert(digit_char(a % 10) == digit_char(b % 10));
        assert(a % 10 == b % 10);
        assert(da.drop_last() =~= spec_decimal(a / 10));
        assert(db.drop_last() =~= spec_decimal(b / 10));
        lemma_decimal_injective(a / 10, b / 10);
        assert(a == 10 * (a / 10) + a % 10);
        assert(b == 10 * (b / 10) + b % 10);
    } else {
        assert(spec_decimal(a).len() == spec_decimal(b).len());
    }
}

fn digit(d: usize) -> (r: char)
    requires
        d < 10,
    ensures
        r == digit_char(d as nat),
{
    if d == 0 { '0' } else if d == 1 { '1' } else if d == 2 { '2' } else if d == 3 { '3' }
    else if d == 4 { '4' } else if d == 5 { '5' } else if d == 6 { '6' } else if d == 7 { '7' }
    else if d == 8 { '8' } else { '9' }
}

pub fn push_decimal(out: &mut Vec<char>, n: usize)
    ensures
        final(out)@ == old(out)@ + spec_decimal(n as nat),
    decreases n,
{
    if n >= 10 {
        push_decimal(out, n / 10);
    }
    out.push(digit(n % 10));
    proof {
        if n < 10 {
            assert(final(out)@ =~= old(out)@ + spec_decimal(n as nat));
        }
    }
}

/// The `k`-th deduplicated form of `base`: `base-k`.
pub open spec fn suffixed(base: Seq<char>, k: nat) -> Seq<char> {
    base + "-"@ + spec_decimal(k)
}

proof fn lemma_suffixed_injective(base: Seq<char>, a: nat, b: nat)
    requires
        suffixed(base, a) == suffixed(base, b),
    ensures
        a == b,
{
    let pre = base + "-"@;
    assert(suffixed(base, a).skip(pre.len() as int) =~= spec_decimal(a));
    assert(suffixed(base, b).skip(pre.len() as int) =~= spec_decimal(b));
    lemma_decimal_injective(a, b);
}

/// If every one of `base-(c+1)` .. `base-(c+m)` is already in `used`, there
/// are at least `m` distinct entries in `used`.
proof fn lemma_used_candidates_bound(used: Seq<Seq<char>>, base: Seq<char>, c: nat, m: nat)
    requires
        forall|j: nat| c < j <= c + m ==> used.contains(#[trigger] suffixed(base, j)),
    ensures
        m <= used.len(),
{
    let f = |j: int| suffixed(base, j as nat);
    let x = vstd::set_lib::set_int_range((c + 1) as int, (c + m + 1) as int);
    let y = x.map(f);
    vstd::set_lib::lemma_int_range((c + 1) as int, (c + m + 1) as int);
    assert(vstd::relations::injective_on(f, x)) by {
        assert forall|p: int, q: int| x.contains(p) && x.contains(q) && #[trigger] f(p) == #[trigger] f(q) implies p == q by {
            lemma_suffixed_injective(base, p as nat, q as nat);
        }
    }
    vstd::set_lib::lemma_map_size(x, y, f);
    assert(y.subset_of(used.to_set())) by {
        assert forall|s: Seq<char>| y.contains(s) implies used.to_set().contains(s) by {
            let j = choose|j: int| x.contains(j) && f(j) == s;
            assert(used.contains(suffixed(base, j as nat)));
        }
    }
    used.lemma_cardinality_of_set();
    vstd::set_lib::lemma_len_subset(y, used.to_set());
}

/// The first free `base-k` with `k > c`, searching at most `fuel` steps.
pub open spec fn first_free(used: Seq<Seq<char>>, base: Seq<char>, c: nat, fuel: nat) -> nat
    decreases fuel,
{
    if fuel == 0 || !used.contains(suffixed(base, c + 1)) {
        c + 1
    } else {
        first_free(used, base, c + 1, (fuel - 1) as nat)
    }
}

/// How many times `base` has been suffixed so far.
pub open spec fn counter_of(counters: Map<Seq<char>, nat>, base: Seq<char>) -> nat {
    if counters.dom().contains(base) { counters[base] } else { 0 }
}

/// One heading's slug given the slugs so far and the per-base counters:
/// the bare slug when free, else the first free `base-k` past the base's
/// counter, which advances to that `k`.
pub open spec fn dedupe_step(used: Seq<Seq<char>>, counters: Map<Seq<char>, nat>, base: Seq<char>) -> (Seq<char>, Map<Seq<char>, nat>) {
    if !used.contains(base) {
        (base, counters)
    } else {
        let k = first_free(used, base, counter_of(counters, base), (used.len() + 1) as nat);
        (suffixed(base, k), counters.insert(base, k))
    }
}

/// The slugs of the first `n` headings and the counters after them.
pub open spec fn slugs_walk(texts: Seq<Seq<char>>, n: int) -> (Seq<Seq<char>>, Map<Seq<char>, nat>)
    decreases n,
{
    if n <= 0 {
        (Seq::empty(), Map::empty())
    } else {
        let prev = slugs_walk(texts, n - 1);
        let step = dedupe_step(prev.0, prev.1, spec_heading_slug(texts[n - 1]));
        (prev.0.push(step.0), step.1)
    }
}

pub open spec fn spec_assign_heading_slugs(texts: Seq<Seq<char>>) -> Seq<Seq<char>> {
    slugs_walk(texts, texts.len() as int).0
}

pub open spec fn pairwise_distinct(s: Seq<Seq<char>>) -> bool {
    forall|i: int, j: int| 0 <= i < j < s.len() ==> s[i] != s[j]
}

/// What the walk keeps true: the slugs so far are distinct, and every
/// `base-1` .. `base-c` below a base's counter `c` is among them.
pub open spec fn slugs_inv(used: Seq<Seq<char>>, counters: Map<Seq<char>, nat>) -> bool {
    &&& pairwise_distinct(used)
    &&& forall|base: Seq<char>, j: nat| 1 <= j <= counter_of(counters, base) ==> used.contains(#[trigger] suffixed(base, j))
}

proof fn lemma_first_free(used: Seq<Seq<char>>, base: Seq<char>, c: nat, fuel: nat)
    requires
        forall|j: nat| 1 <= j <= c ==> used.contains(#[trigger] suffixed(base, j)),
        c + fuel >= used.len() + 1,
    ensures
        c < first_free(used, base, c, fuel),
        !used.contains(suffixed(base, first_free(used, base, c, fuel))),
        forall|j: nat| 1 <= j < first_free(used, base, c, fuel) ==> used.contains(#[trigger] suffixed(base, j)),
    decreases fuel,
{
    if fuel == 0 {
        lemma_used_candidates_bound(used, base, 0, c);
        if used.contains(suffixed(base, c + 1)) {
            lemma_used_candidates_bound(used, base, 0, c + 1);
        }
    } else if used.contains(suffixed(base, c + 1)) {
        assert forall|j: nat| 1 <= j <= c + 1 implies used.contains(#[trigger] suffixed(base, j)) by {}
        lemma_first_free(used, base, c + 1, (fuel - 1) as nat);
    }
}

/// Deduplication never hands out the same slug twice.
pub proof fn lemma_slugs_distinct(texts: Seq<Seq<char>>, n: int)
    requires
        0 <= n <= texts.len(),
    ensures
        slugs_inv(slugs_walk(texts, n).0, slugs_walk(texts, n).1),
        slugs_walk(texts, n).0.len() == n,
    decreases n,
{
    if n > 0 {
        lemma_slugs_distinct(texts, n - 1);
        let prev = slugs_walk(texts, n - 1);
        let used = prev.0;
        let counters = prev.1;
        let base = spec_heading_slug(texts[n - 1]);
        let step = dedupe_step(used, counters, base);
        let next = used.push(step.0);
        if used.contains(base) {
            let c = counter_of(counters, base);
            assert forall|j: nat| 1 <= j <= c implies used.contains(#[trigger] suffixed(base, j)) by {}
            lemma_first_free(used, base, c, (used.len() + 1) as nat);
        }
        assert(!used.contains(step.0));
        assert forall|i: int, j: int| 0 <= i < j < next.len() implies next[i] != next[j] by {
            if j == used.len() {
                assert(used.contains(next[i]));
            }
        }
        assert forall|b: Seq<char>, j: nat| 1 <= j <= counter_of(step.1, b) implies next.contains(#[trigger] suffixed(b, j)) by {
            if used.contains(base) && b == base {
                let k = first_free(used, base, counter_of(counters, base), (used.len() + 1) as nat);
                if j < k {
                    assert(used.contains(suffixed(base, j)));
                    let w = choose|w: int| 0 <= w < used.len() && used[w] == suffixed(base, j);
                    assert(next[w] == suffixed(base, j));
                } else {
                    assert(next[used.len() as int] == suffixed(base, j));
                }
            } else {
                assert(counter_of(step.1, b) == counter_of(counters, b));
                assert(used.contains(suffixed(b, j)));
                let w = choose|w: int| 0 <= w < used.len() && used[w] == suffixed(b, j);
                assert(next[w] == suffixed(b, j));
            }
        }
    }
}

/// The counter recorded last for `b` among the first `n` entries.
pub open spec fn lookup_counter(v: Seq<(Seq<char>, usize)>, b: Seq<char>, n: int) -> nat
    decreases n,
{
    if n <= 0 {
        0
    } else if v[n - 1].0 == b {
        v[n - 1].1 as nat
    } else {
        lookup_counter(v, b, n - 1)
    }
}

proof fn lemma_lookup_push(s: Seq<(Seq<char>, usize)>, x: (Seq<char>, usize), b: Seq<char>, n: int)
    requires
        0 <= n <= s.len(),
    ensures
        lookup_counter(s.push(x), b, n) == lookup_counter(s, b, n),
    decreases n,
{
    if n > 0 {
        lemma_lookup_push(s, x, b, n - 1);
    }
}

pub open spec fn counters_view(v: Seq<(String, usize)>) -> Seq<(Seq<char>, usize)> {
    v.map_values(|p: (String, usize)| (p.0@, p.1))
}

fn contains_string(v: &Vec<String>, s: &str) -> (r: bool)
    ensures
        r == v.deep_view().contains(s@),
{
    let mut i: usize = 0;
    while i < v.len()
        invariant
            i <= v@.len(),
            forall|k: int| 0 <= k < i ==> v.deep_view()[k] != s@,
        decreases v@.len() - i,
    {
        if str_eq(v[i].as_str(), s) {
            assert(v.deep_view()[i as int] == s@);
            return true;
        }
        i = i + 1;
    }
    false
}

fn last_counter(v: &Vec<(String, usize)>, b: &str) -> (r: usize)
    ensures
        r == lookup_counter(counters_view(v@), b@, v@.len() as int),
{
    let ghost cv = counters_view(v@);
    let mut i: usize = v.len();
    while i > 0
        invariant
            i <= v@.len(),
            cv == counters_view(v@),
            lookup_counter(cv, b@, v@.len() as int) == lookup_counter(cv, b@, i as int),
        decreases i,
    {
        if str_eq(v[i - 1].0.as_str(), b) {
            return v[i - 1].1;
        }
        i = i - 1;
    }
    0
}

fn suffixed_string(base: &str, k: usize) -> (r: String)
    ensures
        r@ == suffixed(base@, k as nat),
{
    let mut v = chars_of(base);
    v.push('-');
    push_decimal(&mut v, k);
    proof {
        reveal_strlit("-");
        assert(v@ =~= suffixed(base@, k as nat));
    }
    string_of(&v, 0, v.len())
}

/// Real, per-document deduplicated heading slugs, in document order: the
/// first heading with a given slug keeps it bare; a later one becomes
/// `slug-1`, `slug-2`, ... — each suffix checked against every slug
/// handed out so far, so a generated suffix never collides with a
/// heading whose own text already slugs to it.
pub fn assign_heading_slugs(texts: &[&str]) -> (r: Vec<String>)
    ensures
        r.deep_view() == spec_assign_heading_slugs(texts@.map_values(|t: &str| t@)),
        pairwise_distinct(r.deep_view()),
{
    let ghost tv = texts@.map_values(|t: &str| t@);
    let mut out: Vec<String> = Vec::new();
    let mut counters: Vec<(String, usize)> = Vec::new();
    let n = texts.len();
    let mut i: usize = 0;
    while i < n
        invariant
            n == texts@.len(),
            i <= texts@.len(),
            tv == texts@.map_values(|t: &str| t@),
            out.deep_view() == slugs_walk(tv, i as int).0,
            forall|b: Seq<char>| #[trigger] counter_of(slugs_walk(tv, i as int).1, b)
                == lookup_counter(counters_view(counters@), b, counters@.len() as int),
        decreases texts@.len() - i,
    {
        proof { lemma_slugs_distinct(tv, i as int); }
        let ghost used = out.deep_view();
        let ghost cm = slugs_walk(tv, i as int).1;
        let base = heading_slug(texts[i]);
        assert(base@ == spec_heading_slug(tv[i as int]));
        let slug: String;
        if !contains_string(&out, base.as_str()) {
            slug = base;
        } else {
            let c = last_counter(&counters, base.as_str());
            assert(c == counter_of(cm, base@));
            assert forall|j: nat| 1 <= j <= c implies used.contains(#[trigger] suffixed(base@, j)) by {}
            proof { lemma_used_candidates_bound(used, base@, 0, c as nat); }
            let ghost fuel: nat = (used.len() + 1) as nat;
            let mut k: usize = c + 1;
            let mut cand = suffixed_string(base.as_str(), k);
            while contains_string(&out, cand.as_str())
                invariant
                    used == out.deep_view(),
                    used.len() == i,
                    i < n,
                    n == texts@.len(),
                    c < k,
                    k <= used.len() + 1,
                    cand@ == suffixed(base@, k as nat),
                    fuel == used.len() + 1,
                    forall|j: nat| 1 <= j < k ==> used.contains(#[trigger] suffixed(base@, j)),
                    k - 1 - c <= fuel,
                    first_free(used, base@, c as nat, fuel) == first_free(used, base@, (k - 1) as nat, (fuel - (k - 1 - c)) as nat),
                decreases used.len() + 1 - k,
            {
                assert(used.contains(suffixed(base@, k as nat)));
                assert forall|j: nat| 0 < j <= 0 + k implies used.contains(#[trigger] suffixed(base@, j)) by {
                    if j < k {
                    }
                }
                proof { lemma_used_candidates_bound(used, base@, 0, k as nat); }
                assert(k <= used.len());
                k = k + 1;
                cand = suffixed_string(base.as_str(), k);
            }
            assert(first_free(used, base@, c as nat, fuel) == k);
            let ghost cv_before = counters_view(counters@);
            counters.push((crate::text::owned(base.as_str()), k));
            proof {
                assert(counters_view(counters@) =~= cv_before.push((base@, k)));
                assert forall|b: Seq<char>| #[trigger] counter_of(cm.insert(base@, k as nat), b)
                    == lookup_counter(counters_view(counters@), b, counters@.len() as int) by {
                    lemma_lookup_push(cv_before, (base@, k), b, cv_before.len() as int);
                    if b != base@ {
                        assert(counter_of(cm, b) == lookup_counter(cv_before, b, cv_before.len() as int));
                        assert(counter_of(cm.insert(base@, k as nat), b) == counter_of(cm, b));
                    }
                }
            }
            slug = cand;
        }
        let ghost prev_out = out.deep_view();
        out.push(slug);
        proof {
            assert(out.deep_view() =~= prev_out.push(slug@));
        }
        i = i + 1;
    }
    proof { lemma_slugs_distinct(tv, texts@.len() as int); }
    out
}

} // verus!
