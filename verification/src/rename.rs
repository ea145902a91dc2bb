//! Renaming a claim id and every reference to it across the corpus.
//!
//! A rename is closed by construction: [`apply_edits`] can express
//! nothing but "replace this span, verified to hold `old_id`, with
//! `new_id`'s own bytes". It is staged: [`plan_rename`] refuses what must
//! not be renamed and computes every edit in memory; the renamed corpus
//! is then checked again, and [`verify_rename`] accepts the plan only if
//! the register's [`Snapshot`] of it is the original's with the id
//! substituted ([`substitute_snapshot`]). Writing the files is the
//! caller's business, and only after that.

use vstd::prelude::*;
use vstd::string::StringSliceAdditionalSpecFns;
use vstd::utf8::{decode_utf8, encode_utf8, is_char_boundary};
use crate::assembly::{sort_by_key, sorted_by_key};
use crate::blast::claims_view;
use crate::corpus::LoadedCorpus;
use crate::extract::{is_kebab, is_kebab_case};
use crate::index::{insert_key, insert_row, rows_view};
use crate::marker::{Marker, MarkerV};
use crate::run::{find_claim, first_claim};
use crate::model::{push_decimal, spec_decimal};
use crate::text::{
    byte_slice, chars_of, debug_quoted, debug_text, join_sep, lemma_byte_slice, lemma_encode_concat,
    join_with, occurs_at, owned, replace_all, replace_from, replace_text, str_eq, str_get, string_of,
};
use crate::extract::UnregisteredDefinition;
use crate::model::ClaimV;
use crate::checks::{Diagnostic, DiagnosticV, RegisterResult, Severity};
use crate::index::{copy_strings, keys_ascending, lemma_insert_key, lemma_text_lt_irreflexive, less_than, text_lt, IndexClaimV};
use crate::model::{Index, IndexClaim, IndexDocument};

verus! {

/// A span of a document, by byte offsets, where the id being renamed is
/// written.
#[derive(Debug, Clone, Copy, PartialEq, Eq, Structural)]
pub struct RenameSite {
    pub start: usize,
    pub end: usize,
}

/// Why a rename was refused, or could not be carried out.
#[derive(Debug, Clone)]
pub enum RenameError {
    /// No claim has the id to rename.
    UnknownSourceId(String),
    /// Evaluator markers name the id; a rename would orphan them.
    MarkerSitesRemain { old_id: String, new_id: String, count: usize, sites: String },
    /// The new id is not lowercase kebab-case.
    MalformedTargetId { new_id: String },
    /// A definition already has the new id.
    TargetAlreadyExists { new_id: String, file: String, line: usize },
    /// Re-checking the renamed corpus gave something other than the
    /// original with the id substituted; the text says where.
    InvariantDiverged(String),
    /// A defect in the edit sites themselves.
    Internal(String),
}

pub enum RenameErrorV {
    UnknownSourceId(Seq<char>),
    MarkerSitesRemain { old_id: Seq<char>, new_id: Seq<char>, count: usize, sites: Seq<char> },
    MalformedTargetId { new_id: Seq<char> },
    TargetAlreadyExists { new_id: Seq<char>, file: Seq<char>, line: usize },
    InvariantDiverged(Seq<char>),
    Internal(Seq<char>),
}

impl View for RenameError {
    type V = RenameErrorV;

    open spec fn view(&self) -> RenameErrorV {
        match self {
            RenameError::UnknownSourceId(id) => RenameErrorV::UnknownSourceId(id@),
            RenameError::MarkerSitesRemain { old_id, new_id, count, sites } => RenameErrorV::MarkerSitesRemain {
                old_id: old_id@,
                new_id: new_id@,
                count: *count,
                sites: sites@,
            },
            RenameError::MalformedTargetId { new_id } => RenameErrorV::MalformedTargetId { new_id: new_id@ },
            RenameError::TargetAlreadyExists { new_id, file, line } => RenameErrorV::TargetAlreadyExists {
                new_id: new_id@,
                file: file@,
                line: *line,
            },
            RenameError::InvariantDiverged(m) => RenameErrorV::InvariantDiverged(m@),
            RenameError::Internal(m) => RenameErrorV::Internal(m@),
        }
    }
}

/// The sites, paired with their start offsets.
pub open spec fn site_pairs(sites: Seq<RenameSite>) -> Seq<(usize, RenameSite)> {
    sites.map_values(|s: RenameSite| (s.start, s))
}

/// The sites in order of their start offsets; sites that start at the
/// same offset keep their order.
pub open spec fn sorted_sites(sites: Seq<RenameSite>) -> Seq<RenameSite> {
    sort_by_key(site_pairs(sites)).map_values(|p: (usize, RenameSite)| p.1)
}

/// The first `i` from `k` on whose site runs past the start of the next.
pub open spec fn first_overlap(ss: Seq<RenameSite>, k: int) -> Option<int>
    decreases ss.len() - k,
{
    if k < 0 || k + 1 >= ss.len() {
        None
    } else if ss[k].end > ss[k + 1].start {
        Some(k)
    } else {
        first_overlap(ss, k + 1)
    }
}

/// The first `i` from `k` on whose site is not exactly `old_id` in `src`.
pub open spec fn first_bad_site(src: Seq<char>, ss: Seq<RenameSite>, old_id: Seq<char>, k: int) -> Option<int>
    decreases ss.len() - k,
{
    if k < 0 || k >= ss.len() {
        None
    } else if byte_slice(src, ss[k].start as int, ss[k].end as int) != Some(old_id) {
        Some(k)
    } else {
        first_bad_site(src, ss, old_id, k + 1)
    }
}

/// `a..b`, in decimal.
pub open spec fn range_text(a: usize, b: usize) -> Seq<char> {
    spec_decimal(a as nat) + ".."@ + spec_decimal(b as nat)
}

pub open spec fn overlap_message(x: RenameSite, y: RenameSite) -> Seq<char> {
    "overlapping rename sites at bytes "@ + range_text(x.start, x.end) + " and "@ + range_text(y.start, y.end)
}

pub open spec fn bad_site_message(src: Seq<char>, s: RenameSite, old_id: Seq<char>) -> Seq<char> {
    match byte_slice(src, s.start as int, s.end as int) {
        None => "rename site "@ + range_text(s.start, s.end) + " is not a valid byte range in this document"@,
        Some(found) => "rename site "@ + range_text(s.start, s.end) + " contains "@ + debug_quoted(found) + ", not "@
            + debug_quoted(old_id) + " \u{2014} refusing to guess"@,
    }
}

/// The bytes of `bytes` from `cursor` on, with the spans of sites `k..`
/// each replaced by `nb`.
pub open spec fn spliced(bytes: Seq<u8>, ss: Seq<RenameSite>, nb: Seq<u8>, cursor: int, k: int) -> Seq<u8>
    decreases ss.len() - k,
{
    if k < 0 || k >= ss.len() {
        bytes.subrange(cursor, bytes.len() as int)
    } else {
        bytes.subrange(cursor, ss[k].start as int) + nb + spliced(bytes, ss, nb, ss[k].end as int, k + 1)
    }
}

/// What rewriting `sites` of `src` from `old_id` to `new_id` gives: the
/// bytes of the result, or the text of the defect that stops it. Sites
/// are taken in order of their start; overlapping sites are refused
/// first, then the first site whose text is not exactly `old_id`.
pub open spec fn spec_apply_edits(src: Seq<char>, sites: Seq<RenameSite>, old_id: Seq<char>, new_id: Seq<char>) -> Result<Seq<u8>, Seq<char>> {
    let ss = sorted_sites(sites);
    match first_overlap(ss, 0) {
        Some(i) => Err(overlap_message(ss[i], ss[i + 1])),
        None => match first_bad_site(src, ss, old_id, 0) {
            Some(i) => Err(bad_site_message(src, ss[i], old_id)),
            None => Ok(spliced(encode_utf8(src), ss, encode_utf8(new_id), 0, 0)),
        },
    }
}

fn decimal_text(n: usize) -> (r: String)
    ensures
        r@ == spec_decimal(n as nat),
{
    let mut v: Vec<char> = Vec::new();
    push_decimal(&mut v, n);
    proof { assert(v@ =~= spec_decimal(n as nat)); assert(v@.subrange(0, v@.len() as int) =~= v@); }
    string_of(&v, 0, v.len())
}

fn range_string(a: usize, b: usize) -> (r: String)
    ensures
        r@ == range_text(a, b),
{
    let mut m = decimal_text(a);
    m.append("..");
    let t = decimal_text(b);
    m.append(t.as_str());
    proof { reveal_strlit(".."); }
    m
}

fn overlap_text(x: RenameSite, y: RenameSite) -> (r: String)
    ensures
        r@ == overlap_message(x, y),
{
    let mut m = String::new();
    m.append("overlapping rename sites at bytes ");
    let a = range_string(x.start, x.end);
    m.append(a.as_str());
    m.append(" and ");
    let b = range_string(y.start, y.end);
    m.append(b.as_str());
    proof {
        reveal_strlit("overlapping rename sites at bytes ");
        reveal_strlit(" and ");
        assert(m@ =~= overlap_message(x, y));
    }
    m
}

fn bad_site_text(source: &str, s: RenameSite, old_id: &str) -> (r: String)
    ensures
        r@ == bad_site_message(source@, s, old_id@),
{
    let mut m = String::new();
    m.append("rename site ");
    let a = range_string(s.start, s.end);
    m.append(a.as_str());
    proof {
        reveal_strlit("rename site ");
        reveal_strlit(" is not a valid byte range in this document");
        reveal_strlit(" contains ");
        reveal_strlit(", not ");
        reveal_strlit(" \u{2014} refusing to guess");
    }
    match str_get(source, s.start, s.end) {
        None => {
            m.append(" is not a valid byte range in this document");
            proof { assert(m@ =~= bad_site_message(source@, s, old_id@)); }
        },
        Some(found) => {
            m.append(" contains ");
            let f = debug_text(found.as_str());
            m.append(f.as_str());
            m.append(", not ");
            let o = debug_text(old_id);
            m.append(o.as_str());
            m.append(" \u{2014} refusing to guess");
            proof { assert(m@ =~= bad_site_message(source@, s, old_id@)); }
        },
    }
    m
}

/// Rewrite every site of `source` from `old_id` to `new_id`: each span is
/// checked to hold exactly `old_id` and replaced by `new_id`'s own bytes;
/// every other byte is kept. Overlapping sites, a span off the text's
/// character boundaries, or a span holding anything else is a defect,
/// reported before a byte is rewritten.
pub fn apply_edits(source: &str, sites: &Vec<RenameSite>, old_id: &str, new_id: &str) -> (r: Result<String, RenameError>)
    ensures
        match r {
            Ok(out) => spec_apply_edits(source@, sites@, old_id@, new_id@) == Ok::<Seq<u8>, Seq<char>>(encode_utf8(out@)),
            Err(e) => e@ matches RenameErrorV::Internal(m) && spec_apply_edits(source@, sites@, old_id@, new_id@) == Err::<Seq<u8>, Seq<char>>(m),
        },
{
    let mut pairs: Vec<(usize, RenameSite)> = Vec::new();
    let mut i: usize = 0;
    while i < sites.len()
        invariant
            i <= sites@.len(),
            pairs@ == site_pairs(sites@.take(i as int)),
        decreases sites@.len() - i,
    {
        let s = sites[i];
        pairs.push((s.start, s));
        proof { assert(site_pairs(sites@.take(i + 1)) =~= site_pairs(sites@.take(i as int)).push((s.start, s))); }
        i = i + 1;
    }
    proof { assert(sites@.take(sites@.len() as int) =~= sites@); }
    let sorted = sorted_by_key(pairs);
    let ghost ss = sorted_sites(sites@);
    proof { assert(sorted@.map_values(|p: (usize, RenameSite)| p.1) =~= ss); }
    let n = sorted.len();
    assert(ss.len() == n);

    let mut k: usize = 0;
    while k + 1 < n
        invariant
            n == sorted@.len(),
            ss == sorted@.map_values(|p: (usize, RenameSite)| p.1),
            ss == sorted_sites(sites@),
            k == 0 || k < n,
            first_overlap(ss, 0) == first_overlap(ss, k as int),
            forall|j: int| 0 <= j < k ==> (#[trigger] ss[j]).end <= ss[j + 1].start,
        decreases n - k,
    {
        let x = sorted[k].1;
        let y = sorted[k + 1].1;
        assert(ss[k as int] == x && ss[k + 1] == y);
        if x.end > y.start {
            assert(first_overlap(ss, k as int) == Some(k as int));
            assert(spec_apply_edits(source@, sites@, old_id@, new_id@) == Err::<Seq<u8>, Seq<char>>(overlap_message(x, y)));
            return Err(RenameError::Internal(overlap_text(x, y)));
        }
        k = k + 1;
    }
    assert(first_overlap(ss, k as int) is None);
    assert(first_overlap(ss, 0) is None);

    let ghost bytes = encode_utf8(source@);
    let ghost nb = encode_utf8(new_id@);
    proof {
        vstd::utf8::encode_utf8_valid_utf8(source@);
        vstd::utf8::is_char_boundary_start_end_of_seq(bytes);
    }
    let mut out = String::new();
    let mut cursor: usize = 0;
    let mut k: usize = 0;
    while k < n
        invariant
            n == sorted@.len(),
            ss == sorted@.map_values(|p: (usize, RenameSite)| p.1),
            ss == sorted_sites(sites@),
            first_overlap(ss, 0) is None,
            bytes == encode_utf8(source@),
            nb == encode_utf8(new_id@),
            vstd::utf8::valid_utf8(bytes),
            is_char_boundary(bytes, bytes.len() as int),
            k <= n,
            forall|j: int| 0 <= j < n - 1 ==> (#[trigger] ss[j]).end <= ss[j + 1].start,
            first_bad_site(source@, ss, old_id@, 0) == first_bad_site(source@, ss, old_id@, k as int),
            cursor <= bytes.len(),
            is_char_boundary(bytes, cursor as int),
            k == 0 ==> cursor == 0,
            k > 0 ==> cursor == ss[k - 1].end,
            encode_utf8(out@) + spliced(bytes, ss, nb, cursor as int, k as int) == spliced(bytes, ss, nb, 0, 0),
        decreases n - k,
    {
        let site = sorted[k].1;
        assert(ss[k as int] == site);
        match str_get(source, site.start, site.end) {
            None => {
                assert(first_bad_site(source@, ss, old_id@, k as int) == Some(k as int));
                assert(spec_apply_edits(source@, sites@, old_id@, new_id@) == Err::<Seq<u8>, Seq<char>>(bad_site_message(source@, site, old_id@)));
                return Err(RenameError::Internal(bad_site_text(source, site, old_id)));
            },
            Some(found) => {
                if !str_eq(found.as_str(), old_id) {
                    assert(first_bad_site(source@, ss, old_id@, k as int) == Some(k as int));
                    assert(spec_apply_edits(source@, sites@, old_id@, new_id@) == Err::<Seq<u8>, Seq<char>>(bad_site_message(source@, site, old_id@)));
                    return Err(RenameError::Internal(bad_site_text(source, site, old_id)));
                }
                if k > 0 {
                    assert(ss[k - 1].end <= ss[k as int].start);
                }
                assert(byte_slice(source@, cursor as int, site.start as int) is Some);
                let piece = str_get(source, cursor, site.start);
                let ghost out0 = out@;
                proof {
                    lemma_byte_slice(source@, cursor as int, site.start as int);
                    lemma_encode_concat(out@, piece->0@);
                    lemma_encode_concat(out@ + piece->0@, new_id@);
                }
                let piece = piece.unwrap();
                out.append(piece.as_str());
                out.append(new_id);
                proof {
                    assert(spliced(bytes, ss, nb, cursor as int, k as int)
                        == bytes.subrange(cursor as int, site.start as int) + nb + spliced(bytes, ss, nb, site.end as int, k + 1));
                    assert(encode_utf8(out@) + spliced(bytes, ss, nb, site.end as int, k + 1)
                        =~= encode_utf8(out0) + spliced(bytes, ss, nb, cursor as int, k as int));
                }
                cursor = site.end;
            },
        }
        k = k + 1;
    }
    assert(first_bad_site(source@, ss, old_id@, n as int) is None);
    let (_, tail) = source.split_at(cursor);
    proof { lemma_encode_concat(out@, tail@); }
    out.append(tail);
    proof {
        assert(encode_utf8(out@) =~= spliced(bytes, ss, nb, 0, 0));
    }
    Ok(out)
}

proof fn lemma_spliced_same(src: Seq<char>, ss: Seq<RenameSite>, old_id: Seq<char>, c: int, k: int)
    requires
        0 <= k <= ss.len(),
        0 <= c <= encode_utf8(src).len(),
        k < ss.len() ==> c <= ss[k].start,
        forall|j: int| 0 <= j < ss.len() - 1 ==> (#[trigger] ss[j]).end <= ss[j + 1].start,
        first_bad_site(src, ss, old_id, k) is None,
    ensures
        spliced(encode_utf8(src), ss, encode_utf8(old_id), c, k) == encode_utf8(src).subrange(c, encode_utf8(src).len() as int),
    decreases ss.len() - k,
{
    let bytes = encode_utf8(src);
    if k < ss.len() {
        let s = ss[k];
        lemma_byte_slice(src, s.start as int, s.end as int);
        if k + 1 < ss.len() {
            assert(ss[k].end <= ss[k + 1].start);
        }
        lemma_spliced_same(src, ss, old_id, s.end as int, k + 1);
        assert(bytes.subrange(c, s.start as int) + bytes.subrange(s.start as int, s.end as int)
            + bytes.subrange(s.end as int, bytes.len() as int) =~= bytes.subrange(c, bytes.len() as int));
    }
}

/// Renaming an id to itself rewrites nothing: whenever the edits go
/// through, the result is the source, byte for byte.
pub proof fn lemma_apply_edits_same_id(src: Seq<char>, sites: Seq<RenameSite>, old_id: Seq<char>)
    ensures
        spec_apply_edits(src, sites, old_id, old_id) matches Ok(b) ==> b == encode_utf8(src),
{
    let ss = sorted_sites(sites);
    if first_overlap(ss, 0) is None && first_bad_site(src, ss, old_id, 0) is None {
        assert forall|j: int| 0 <= j < ss.len() - 1 implies (#[trigger] ss[j]).end <= ss[j + 1].start by {
            lemma_first_overlap_none(ss, 0, j);
        }
        lemma_spliced_same(src, ss, old_id, 0, 0);
        assert(encode_utf8(src).subrange(0, encode_utf8(src).len() as int) =~= encode_utf8(src));
    }
}

proof fn lemma_first_overlap_none(ss: Seq<RenameSite>, k: int, j: int)
    requires
        0 <= k <= j < ss.len() - 1,
        first_overlap(ss, k) is None,
    ensures
        ss[j].end <= ss[j + 1].start,
    decreases j - k,
{
    if k < j {
        lemma_first_overlap_none(ss, k + 1, j);
    }
}

/// One file's rewrite.
#[derive(Debug, Clone)]
pub struct FileChange {
    pub old_content: String,
    pub new_content: String,
    /// How many sites in the file were rewritten.
    pub edit_count: usize,
}

impl View for FileChange {
    type V = (Seq<char>, Seq<char>, usize);

    open spec fn view(&self) -> (Seq<char>, Seq<char>, usize) {
        (self.old_content@, self.new_content@, self.edit_count)
    }
}

/// Every file a rename rewrites, keyed by corpus-relative path.
#[derive(Debug, Clone)]
pub struct RenamePlan {
    pub old_id: String,
    pub new_id: String,
    pub changes: Vec<(String, FileChange)>,
}

/// The edit counts of the first `n` changes, summed.
pub open spec fn edits_sum(changes: Seq<(String, FileChange)>, n: int) -> int
    decreases n,
{
    if n <= 0 {
        0
    } else {
        edits_sum(changes, n - 1) + changes[n - 1].1.edit_count
    }
}

proof fn lemma_edits_sum_mono(changes: Seq<(String, FileChange)>, i: int, j: int)
    requires
        0 <= i <= j,
    ensures
        edits_sum(changes, i) <= edits_sum(changes, j),
    decreases j - i,
{
    if i < j {
        lemma_edits_sum_mono(changes, i, j - 1);
    }
}

impl RenamePlan {
    /// Every site the plan rewrites, across all files.
    pub fn total_edits(&self) -> (r: usize)
        requires
            edits_sum(self.changes@, self.changes@.len() as int) <= usize::MAX,
        ensures
            r == edits_sum(self.changes@, self.changes@.len() as int),
    {
        let mut total: usize = 0;
        let mut i: usize = 0;
        while i < self.changes.len()
            invariant
                i <= self.changes@.len(),
                total == edits_sum(self.changes@, i as int),
                edits_sum(self.changes@, self.changes@.len() as int) <= usize::MAX,
            decreases self.changes@.len() - i,
        {
            proof { lemma_edits_sum_mono(self.changes@, i + 1, self.changes@.len() as int); }
            total = total + self.changes[i].1.edit_count;
            i = i + 1;
        }
        total
    }
}

/// `file:line` for each of the first `n` markers naming `old_id`.
pub open spec fn marker_sites(ms: Seq<MarkerV>, old_id: Seq<char>, n: int) -> Seq<Seq<char>>
    decreases n,
{
    if n <= 0 {
        Seq::empty()
    } else {
        let m = ms[n - 1];
        marker_sites(ms, old_id, n - 1) + if m.id == old_id { seq![m.file + ":"@ + spec_decimal(m.line as nat)] } else { Seq::empty() }
    }
}

/// Where the markers naming `old_id` are, as `file:line`: a rename
/// refuses to orphan them.
pub fn marker_sites_naming(markers: &Vec<Marker>, old_id: &str) -> (r: Vec<String>)
    ensures
        r.deep_view() == marker_sites(markers@.map_values(|m: Marker| m@), old_id@, markers@.len() as int),
{
    let ghost mv = markers@.map_values(|m: Marker| m@);
    let mut out: Vec<String> = Vec::new();
    let mut i: usize = 0;
    proof { reveal_strlit(":"); }
    while i < markers.len()
        invariant
            i <= markers@.len(),
            mv == markers@.map_values(|m: Marker| m@),
            out.deep_view() == marker_sites(mv, old_id@, i as int),
        decreases markers@.len() - i,
    {
        let m = &markers[i];
        assert(mv[i as int] == m@);
        let ghost prev = out.deep_view();
        if str_eq(m.id.as_str(), old_id) {
            let mut v = chars_of(m.file.as_str());
            v.push(':');
            proof {
                reveal_strlit(":");
                assert(v@ =~= m@.file + ":"@);
            }
            push_decimal(&mut v, m.line.0);
            let s = string_of(&v, 0, v.len());
            proof {
                assert(v@ =~= m@.file + ":"@ + spec_decimal(m@.line as nat));
                assert(v@.subrange(0, v@.len() as int) =~= v@);
            }
            out.push(s);
            proof { assert(out.deep_view() =~= prev + seq![s@]); }
        } else {
            proof { assert(out.deep_view() =~= prev + Seq::<Seq<char>>::empty()); }
        }
        i = i + 1;
    }
    out
}

/// `new_id` for exactly `old_id`, anything else unchanged.
pub open spec fn spec_substitute_id(s: Seq<char>, old_id: Seq<char>, new_id: Seq<char>) -> Seq<char> {
    if s == old_id { new_id } else { s }
}

pub fn substitute_id(s: &str, old_id: &str, new_id: &str) -> (r: String)
    ensures
        r@ == spec_substitute_id(s@, old_id@, new_id@),
{
    if str_eq(s, old_id) { owned(new_id) } else { owned(s) }
}

/// The last index of `#` in `s`, or `-1`.
pub open spec fn last_hash(s: Seq<char>, n: int) -> int
    decreases n,
{
    if n <= 0 {
        -1
    } else if s[n - 1] == '#' {
        n - 1
    } else {
        last_hash(s, n - 1)
    }
}

/// A prose link after the rename: a bare `old_id` becomes `new_id`, and a
/// link whose fragment (after its last `#`) is `old_id` gets `new_id` as
/// its fragment; any other link is unchanged.
pub open spec fn spec_substitute_link(link: Seq<char>, old_id: Seq<char>, new_id: Seq<char>) -> Seq<char> {
    let h = last_hash(link, link.len() as int);
    if link == old_id {
        new_id
    } else if h >= 0 && link.skip(h + 1) == old_id {
        link.take(h) + "#"@ + new_id
    } else {
        link
    }
}

pub fn substitute_link(link: &str, old_id: &str, new_id: &str) -> (r: String)
    ensures
        r@ == spec_substitute_link(link@, old_id@, new_id@),
{
    if str_eq(link, old_id) {
        return owned(new_id);
    }
    let v = chars_of(link);
    let mut n: usize = v.len();
    while n > 0 && v[n - 1] != '#'
        invariant
            n <= v@.len(),
            last_hash(v@, v@.len() as int) == last_hash(v@, n as int),
        decreases n,
    {
        n = n - 1;
    }
    proof { reveal_strlit("#"); }
    if n > 0 {
        let h = n - 1;
        let frag = string_of(&v, h + 1, v.len());
        proof { assert(v@.subrange(h + 1, v@.len() as int) =~= v@.skip(h + 1)); }
        if str_eq(frag.as_str(), old_id) {
            let mut w = chars_of(string_of(&v, 0, h).as_str());
            w.push('#');
            let mut out = string_of(&w, 0, w.len());
            out.append(new_id);
            proof {
                assert(v@.subrange(0, h as int) =~= v@.take(h as int));
                assert(w@.subrange(0, w@.len() as int) =~= w@);
                assert(out@ =~= v@.take(h as int) + "#"@ + new_id@);
            }
            return out;
        }
    }
    owned(link)
}

/// The first unregistered definition from `k` on with id `id`.
pub open spec fn first_unregistered(us: Seq<(Seq<char>, usize, Seq<char>)>, id: Seq<char>, k: int) -> Option<int>
    decreases us.len() - k,
{
    if k < 0 || k >= us.len() {
        None
    } else if us[k].2 == id {
        Some(k)
    } else {
        first_unregistered(us, id, k + 1)
    }
}

/// Each site on a line of its own, indented by two spaces.
pub open spec fn site_lines(sites: Seq<Seq<char>>) -> Seq<char> {
    join_sep(sites.map_values(|t: Seq<char>| "  "@ + t), "\n"@, sites.len() as int)
}

/// Why renaming `old_id` to `new_id` is refused before any edit, if it
/// is: checked in order, an unknown `old_id`, evaluator markers still
/// naming it, a `new_id` outside the id grammar, and a `new_id` that a
/// claim or an unregistered definition already has.
pub open spec fn rename_refusal(
    cs: Seq<ClaimV>,
    us: Seq<(Seq<char>, usize, Seq<char>)>,
    ms: Seq<MarkerV>,
    old_id: Seq<char>,
    new_id: Seq<char>,
) -> Option<RenameErrorV> {
    let sites = marker_sites(ms, old_id, ms.len() as int);
    if first_claim(cs, old_id, 0) is None {
        Some(RenameErrorV::UnknownSourceId(old_id))
    } else if sites.len() > 0 {
        Some(RenameErrorV::MarkerSitesRemain { old_id, new_id, count: sites.len() as usize, sites: site_lines(sites) })
    } else if !is_kebab(new_id) {
        Some(RenameErrorV::MalformedTargetId { new_id })
    } else {
        match first_claim(cs, new_id, 0) {
            Some(i) => Some(RenameErrorV::TargetAlreadyExists { new_id, file: cs[i].file, line: cs[i].heading_line }),
            None => match first_unregistered(us, new_id, 0) {
                Some(i) => Some(RenameErrorV::TargetAlreadyExists { new_id, file: us[i].0, line: us[i].1 }),
                None => None,
            },
        }
    }
}

pub open spec fn sources_view(v: Seq<(String, String, Vec<RenameSite>)>) -> Seq<(Seq<char>, Seq<char>, Seq<RenameSite>)> {
    v.map_values(|t: (String, String, Vec<RenameSite>)| (t.0@, t.1@, t.2@))
}

/// The changes after the first `n` documents: a document with no site is
/// left alone, one with sites is rewritten (see [`spec_apply_edits`]) and
/// recorded under its path; the first defect stops the plan.
pub open spec fn plan_changes(
    srcs: Seq<(Seq<char>, Seq<char>, Seq<RenameSite>)>,
    old_id: Seq<char>,
    new_id: Seq<char>,
    n: int,
) -> Result<Seq<(Seq<char>, (Seq<char>, Seq<char>, usize))>, Seq<char>>
    decreases n,
{
    if n <= 0 {
        Ok(Seq::empty())
    } else {
        match plan_changes(srcs, old_id, new_id, n - 1) {
            Err(m) => Err(m),
            Ok(ch) => {
                let (file, content, sites) = srcs[n - 1];
                if sites.len() == 0 {
                    Ok(ch)
                } else {
                    match spec_apply_edits(content, sites, old_id, new_id) {
                        Err(m) => Err(m),
                        Ok(b) => Ok(insert_key(ch, file, (content, decode_utf8(b), sites.len() as usize))),
                    }
                }
            },
        }
    }
}

pub open spec fn no_site_message(old_id: Seq<char>) -> Seq<char> {
    debug_quoted(old_id) + " resolved to a claim but no rename site was found anywhere in the corpus"@
}

fn site_lines_text(sites: &Vec<String>) -> (r: String)
    ensures
        r@ == site_lines(sites.deep_view()),
{
    let ghost items = sites.deep_view().map_values(|t: Seq<char>| "  "@ + t);
    let mut out = String::new();
    let mut i: usize = 0;
    proof { reveal_strlit("  "); reveal_strlit("\n"); }
    while i < sites.len()
        invariant
            i <= sites@.len(),
            items == sites.deep_view().map_values(|t: Seq<char>| "  "@ + t),
            out@ == join_sep(items, "\n"@, i as int),
        decreases sites@.len() - i,
    {
        if i > 0 {
            out.append("\n");
        }
        out.append("  ");
        out.append(sites[i].as_str());
        proof {
            assert(items[i as int] == "  "@ + sites@[i as int]@);
            if i == 0 {
                assert(out@ =~= items[0]);
            } else {
                assert(out@ =~= join_sep(items, "\n"@, i as int) + "\n"@ + items[i as int]);
            }
        }
        i = i + 1;
    }
    out
}

/// The first unregistered definition with id `id`.
fn find_unregistered(us: &Vec<UnregisteredDefinition>, id: &str) -> (r: Option<usize>)
    ensures
        match r {
            Some(i) => first_unregistered(us@.map_values(|u: UnregisteredDefinition| u@), id@, 0) == Some(i as int) && i < us@.len(),
            None => first_unregistered(us@.map_values(|u: UnregisteredDefinition| u@), id@, 0) is None,
        },
{
    let ghost uv = us@.map_values(|u: UnregisteredDefinition| u@);
    let mut i: usize = 0;
    while i < us.len()
        invariant
            i <= us@.len(),
            uv == us@.map_values(|u: UnregisteredDefinition| u@),
            first_unregistered(uv, id@, 0) == first_unregistered(uv, id@, i as int),
        decreases us@.len() - i,
    {
        assert(uv[i as int] == us@[i as int]@);
        if str_eq(us[i].id.as_str(), id) {
            return Some(i);
        }
        i = i + 1;
    }
    None
}

/// Plan renaming claim `old_id` to `new_id`, never touching disk.
/// `sources` holds, for each document of the corpus in order, its path,
/// its text, and the sites in that text where `old_id` is written. The
/// rename is refused as [`rename_refusal`] says; otherwise every
/// document with sites is rewritten, the first defect in a document's
/// sites stopping the plan, and a plan that rewrites nothing is a defect
/// too: a real claim always has at least its own definition to rewrite.
pub fn plan_rename(
    loaded: &LoadedCorpus,
    markers: &Vec<Marker>,
    sources: &Vec<(String, String, Vec<RenameSite>)>,
    old_id: &str,
    new_id: &str,
) -> (r: Result<RenamePlan, RenameError>)
    ensures
        match rename_refusal(
            claims_view(loaded.corpus.claims@),
            loaded.unregistered_definitions@.map_values(|u: UnregisteredDefinition| u@),
            markers@.map_values(|m: Marker| m@),
            old_id@,
            new_id@,
        ) {
            Some(e) => r matches Err(x) && x@ == e,
            None => match plan_changes(sources_view(sources@), old_id@, new_id@, sources@.len() as int) {
                Err(m) => r matches Err(x) && x@ == RenameErrorV::Internal(m),
                Ok(ch) => if ch.len() == 0 {
                    r matches Err(x) && x@ == RenameErrorV::Internal(no_site_message(old_id@))
                } else {
                    r matches Ok(p) && p.old_id@ == old_id@ && p.new_id@ == new_id@ && rows_view(p.changes@) == ch
                },
            },
        },
{
    let ghost cs = claims_view(loaded.corpus.claims@);
    let ghost us = loaded.unregistered_definitions@.map_values(|u: UnregisteredDefinition| u@);
    let ghost ms = markers@.map_values(|m: Marker| m@);
    if find_claim(&loaded.corpus, old_id).is_none() {
        return Err(RenameError::UnknownSourceId(owned(old_id)));
    }
    let sites = marker_sites_naming(markers, old_id);
    if sites.len() > 0 {
        return Err(RenameError::MarkerSitesRemain {
            old_id: owned(old_id),
            new_id: owned(new_id),
            count: sites.len(),
            sites: site_lines_text(&sites),
        });
    }
    if !is_kebab_case(new_id) {
        return Err(RenameError::MalformedTargetId { new_id: owned(new_id) });
    }
    match find_claim(&loaded.corpus, new_id) {
        Some(i) => {
            let c = &loaded.corpus.claims[i];
            assert(cs[i as int] == c@);
            return Err(RenameError::TargetAlreadyExists {
                new_id: owned(new_id),
                file: owned(c.file.as_str()),
                line: c.heading_line.0,
            });
        },
        None => {},
    }
    match find_unregistered(&loaded.unregistered_definitions, new_id) {
        Some(i) => {
            let u = &loaded.unregistered_definitions[i];
            assert(us[i as int] == u@);
            return Err(RenameError::TargetAlreadyExists {
                new_id: owned(new_id),
                file: owned(u.file.as_str()),
                line: u.line.0,
            });
        },
        None => {},
    }
    assert(rename_refusal(cs, us, ms, old_id@, new_id@) is None);

    let ghost sv = sources_view(sources@);
    let mut changes: Vec<(String, FileChange)> = Vec::new();
    proof { assert(rows_view(changes@) =~= Seq::<(Seq<char>, (Seq<char>, Seq<char>, usize))>::empty()); }
    let mut k: usize = 0;
    while k < sources.len()
        invariant
            k <= sources@.len(),
            sv == sources_view(sources@),
            rename_refusal(
                claims_view(loaded.corpus.claims@),
                loaded.unregistered_definitions@.map_values(|u: UnregisteredDefinition| u@),
                markers@.map_values(|m: Marker| m@),
                old_id@,
                new_id@,
            ) is None,
            plan_changes(sv, old_id@, new_id@, k as int) == Ok::<Seq<(Seq<char>, (Seq<char>, Seq<char>, usize))>, Seq<char>>(rows_view(changes@)),
        decreases sources@.len() - k,
    {
        let src = &sources[k];
        assert(sv[k as int] == (src.0@, src.1@, src.2@));
        if src.2.len() > 0 {
            match apply_edits(src.1.as_str(), &src.2, old_id, new_id) {
                Err(e) => {
                    assert(plan_changes(sv, old_id@, new_id@, k as int + 1) == Err::<Seq<(Seq<char>, (Seq<char>, Seq<char>, usize))>, Seq<char>>(e@->Internal_0));
                    proof { lemma_plan_changes_err(sv, old_id@, new_id@, k as int + 1, sources@.len() as int); }
                    return Err(e);
                },
                Ok(out) => {
                    proof { vstd::utf8::encode_utf8_decode_utf8(out@); }
                    let change = FileChange {
                        old_content: owned(src.1.as_str()),
                        new_content: out,
                        edit_count: src.2.len(),
                    };
                    insert_row(&mut changes, owned(src.0.as_str()), change);
                },
            }
        }
        k = k + 1;
    }
    if changes.len() == 0 {
        let mut m = debug_text(old_id);
        m.append(" resolved to a claim but no rename site was found anywhere in the corpus");
        proof { reveal_strlit(" resolved to a claim but no rename site was found anywhere in the corpus"); }
        return Err(RenameError::Internal(m));
    }
    Ok(RenamePlan { old_id: owned(old_id), new_id: owned(new_id), changes })
}

/// Once a document's sites fail, the plan fails with the same text.
proof fn lemma_plan_changes_err(
    srcs: Seq<(Seq<char>, Seq<char>, Seq<RenameSite>)>,
    old_id: Seq<char>,
    new_id: Seq<char>,
    k: int,
    n: int,
)
    requires
        1 <= k <= n,
        plan_changes(srcs, old_id, new_id, k) is Err,
    ensures
        plan_changes(srcs, old_id, new_id, n) == plan_changes(srcs, old_id, new_id, k),
    decreases n - k,
{
    if k < n {
        lemma_plan_changes_err(srcs, old_id, new_id, k, n - 1);
    }
}

// --- what a rename must leave unchanged ------------------------------------

/// The lexicographic order of diagnostics by check, file, line and
/// message.
pub open spec fn diag_lt(a: DiagnosticV, b: DiagnosticV) -> bool {
    ||| text_lt(a.check, b.check)
    ||| a.check == b.check && text_lt(a.file, b.file)
    ||| a.check == b.check && a.file == b.file && a.line < b.line
    ||| a.check == b.check && a.file == b.file && a.line == b.line && text_lt(a.message, b.message)
}

/// `s` with `x` inserted after every element not above it.
pub open spec fn insert_diag(s: Seq<DiagnosticV>, x: DiagnosticV) -> Seq<DiagnosticV>
    decreases s.len(),
{
    if s.len() == 0 || !diag_lt(x, s.last()) {
        s.push(x)
    } else {
        insert_diag(s.drop_last(), x).push(s.last())
    }
}

/// `s` stably sorted by [`diag_lt`]: equal diagnostics keep their order.
pub open spec fn sort_diags(s: Seq<DiagnosticV>) -> Seq<DiagnosticV>
    decreases s.len(),
{
    if s.len() == 0 {
        s
    } else {
        insert_diag(sort_diags(s.drop_last()), s.last())
    }
}

pub open spec fn diags_view(v: Seq<Diagnostic>) -> Seq<DiagnosticV> {
    v.map_values(|d: Diagnostic| d@)
}

fn text_before(a: &String, b: &String) -> (r: bool)
    ensures
        r == text_lt(a@, b@),
{
    less_than(&chars_of(a.as_str()), &chars_of(b.as_str()))
}

fn diag_before(a: &Diagnostic, b: &Diagnostic) -> (r: bool)
    ensures
        r == diag_lt(a@, b@),
{
    if text_before(&a.check, &b.check) {
        return true;
    }
    if !str_eq(a.check.as_str(), b.check.as_str()) {
        return false;
    }
    if text_before(&a.file, &b.file) {
        return true;
    }
    if !str_eq(a.file.as_str(), b.file.as_str()) {
        return false;
    }
    if a.line != b.line {
        return a.line < b.line;
    }
    text_before(&a.message, &b.message)
}

proof fn lemma_insert_diag_at(s: Seq<DiagnosticV>, x: DiagnosticV, j: int)
    requires
        0 <= j <= s.len(),
        forall|k: int| j <= k < s.len() ==> diag_lt(x, #[trigger] s[k]),
        j == 0 || !diag_lt(x, s[j - 1]),
    ensures
        insert_diag(s, x) == s.take(j).push(x) + s.skip(j),
    decreases s.len(),
{
    if s.len() == 0 {
        assert(s.take(j).push(x) + s.skip(j) =~= s.push(x));
    } else if !diag_lt(x, s.last()) {
        assert(j == s.len());
        assert(s.take(j).push(x) + s.skip(j) =~= s.push(x));
    } else {
        let d = s.drop_last();
        lemma_insert_diag_at(d, x, j);
        assert((d.take(j).push(x) + d.skip(j)).push(s.last()) =~= s.take(j).push(x) + s.skip(j));
    }
}

fn insert_diagnostic(v: &mut Vec<Diagnostic>, x: Diagnostic)
    ensures
        diags_view(final(v)@) == insert_diag(diags_view(old(v)@), x@),
{
    let ghost s = diags_view(v@);
    let mut j: usize = v.len();
    while j > 0 && diag_before(&x, &v[j - 1])
        invariant
            j <= v@.len(),
            v@ == old(v)@,
            s == diags_view(v@),
            forall|k: int| j <= k < s.len() ==> diag_lt(x@, #[trigger] s[k]),
        decreases j,
    {
        j = j - 1;
    }
    proof { lemma_insert_diag_at(s, x@, j as int); }
    v.insert(j, x);
    proof { assert(diags_view(v@) =~= s.take(j as int).push(x@) + s.skip(j as int)); }
}

/// Copies of `v`'s diagnostics, stably sorted by check, file, line and
/// message.
pub fn sorted_diagnostics(v: &Vec<Diagnostic>) -> (r: Vec<Diagnostic>)
    ensures
        diags_view(r@) == sort_diags(diags_view(v@)),
{
    let ghost dv = diags_view(v@);
    let mut out: Vec<Diagnostic> = Vec::new();
    let mut i: usize = 0;
    proof { assert(dv.take(0) =~= Seq::<DiagnosticV>::empty()); assert(diags_view(out@) =~= sort_diags(dv.take(0))); }
    while i < v.len()
        invariant
            i <= v@.len(),
            dv == diags_view(v@),
            diags_view(out@) == sort_diags(dv.take(i as int)),
        decreases v@.len() - i,
    {
        let d = v[i].copy();
        proof { assert(dv.take(i + 1).drop_last() =~= dv.take(i as int)); }
        insert_diagnostic(&mut out, d);
        i = i + 1;
    }
    proof { assert(dv.take(v@.len() as int) =~= dv); }
    out
}

/// A claim's prose: its link targets and its inline code spans.
#[derive(Debug, Clone)]
pub struct ClaimProse {
    pub links: Vec<String>,
    pub code: Vec<String>,
}

impl View for ClaimProse {
    type V = (Seq<Seq<char>>, Seq<Seq<char>>);

    open spec fn view(&self) -> (Seq<Seq<char>>, Seq<Seq<char>>) {
        (self.links.deep_view(), self.code.deep_view())
    }
}

/// What a rename must leave unchanged, the id substitution aside: the
/// register's index and diagnostics, and every claim's prose. The index
/// alone would miss a diagnostic that no index row carries and the prose
/// an anchor's scope depends on.
#[derive(Debug, Clone)]
pub struct Snapshot {
    pub index: Index,
    /// Sorted by check, file, line and message, so that two snapshots
    /// compare by content rather than by the order of evaluation.
    pub diagnostics: Vec<Diagnostic>,
    /// Each claim id's prose, ids ascending.
    pub claim_prose: Vec<(String, ClaimProse)>,
}

pub struct SnapshotV {
    pub claims: Seq<(Seq<char>, IndexClaimV)>,
    pub documents: Seq<(Seq<char>, (Seq<char>, Seq<char>))>,
    pub diagnostics: Seq<DiagnosticV>,
    pub claim_prose: Seq<(Seq<char>, (Seq<Seq<char>>, Seq<Seq<char>>))>,
}

impl View for Snapshot {
    type V = SnapshotV;

    open spec fn view(&self) -> SnapshotV {
        SnapshotV {
            claims: rows_view(self.index.claims@),
            documents: rows_view(self.index.documents@),
            diagnostics: diags_view(self.diagnostics@),
            claim_prose: rows_view(self.claim_prose@),
        }
    }
}

/// The prose rows after the first `n` claims, a later claim with the
/// same id winning.
pub open spec fn prose_rows(cs: Seq<ClaimV>, n: int) -> Seq<(Seq<char>, (Seq<Seq<char>>, Seq<Seq<char>>))>
    decreases n,
{
    if n <= 0 {
        Seq::empty()
    } else {
        insert_key(prose_rows(cs, n - 1), cs[n - 1].id, (cs[n - 1].prose_links, cs[n - 1].prose_code))
    }
}

/// The snapshot of a loaded corpus and the register's result over it.
pub fn snapshot(loaded: &LoadedCorpus, result: &RegisterResult) -> (r: Snapshot)
    ensures
        r@ == (SnapshotV {
            claims: rows_view(result.index.claims@),
            documents: rows_view(result.index.documents@),
            diagnostics: sort_diags(diags_view(result.report.diagnostics@)),
            claim_prose: prose_rows(claims_view(loaded.corpus.claims@), loaded.corpus.claims@.len() as int),
        }),
        keys_ascending(r@.claim_prose),
{
    let diagnostics = sorted_diagnostics(&result.report.diagnostics);
    let ghost cs = claims_view(loaded.corpus.claims@);
    let mut claim_prose: Vec<(String, ClaimProse)> = Vec::new();
    let mut i: usize = 0;
    proof { assert(rows_view(claim_prose@) =~= prose_rows(cs, 0)); }
    while i < loaded.corpus.claims.len()
        invariant
            i <= loaded.corpus.claims@.len(),
            cs == claims_view(loaded.corpus.claims@),
            rows_view(claim_prose@) == prose_rows(cs, i as int),
        decreases loaded.corpus.claims@.len() - i,
    {
        let c = &loaded.corpus.claims[i];
        assert(cs[i as int] == c@);
        let p = ClaimProse { links: copy_strings(&c.prose_links), code: copy_strings(&c.prose_code) };
        insert_row(&mut claim_prose, owned(c.id.as_str()), p);
        i = i + 1;
    }
    proof { lemma_prose_rows_ascending(cs, cs.len() as int); }
    Snapshot { index: result.index.copy(), diagnostics, claim_prose }
}

proof fn lemma_prose_rows_ascending(cs: Seq<ClaimV>, n: int)
    ensures
        keys_ascending(prose_rows(cs, n)),
    decreases n,
{
    if n > 0 {
        lemma_prose_rows_ascending(cs, n - 1);
        lemma_insert_key(prose_rows(cs, n - 1), cs[n - 1].id, (cs[n - 1].prose_links, cs[n - 1].prose_code));
    }
}

pub open spec fn sub_ids(v: Seq<Seq<char>>, old_id: Seq<char>, new_id: Seq<char>) -> Seq<Seq<char>> {
    v.map_values(|d: Seq<char>| spec_substitute_id(d, old_id, new_id))
}

/// An index row with `old_id` read as `new_id` wherever it is cited.
pub open spec fn sub_index_claim(c: IndexClaimV, old_id: Seq<char>, new_id: Seq<char>) -> IndexClaimV {
    IndexClaimV {
        depends: sub_ids(c.depends, old_id, new_id),
        because: sub_ids(c.because, old_id, new_id),
        ..c
    }
}

/// The claim rows after the first `n`, each under its substituted id.
pub open spec fn sub_claim_rows(rows: Seq<(Seq<char>, IndexClaimV)>, old_id: Seq<char>, new_id: Seq<char>, n: int) -> Seq<(Seq<char>, IndexClaimV)>
    decreases n,
{
    if n <= 0 {
        Seq::empty()
    } else {
        insert_key(
            sub_claim_rows(rows, old_id, new_id, n - 1),
            spec_substitute_id(rows[n - 1].0, old_id, new_id),
            sub_index_claim(rows[n - 1].1, old_id, new_id),
        )
    }
}

/// A diagnostic whose message has `old_id` replaced by `new_id` wherever
/// it occurs: a message may name an id inside free text.
pub open spec fn sub_diag(d: DiagnosticV, old_id: Seq<char>, new_id: Seq<char>) -> DiagnosticV {
    DiagnosticV { message: replace_all(d.message, old_id, new_id), ..d }
}

/// The prose rows after the first `n`, each under its substituted id,
/// links substituted and code spans (never a reference) kept.
pub open spec fn sub_prose_rows(
    rows: Seq<(Seq<char>, (Seq<Seq<char>>, Seq<Seq<char>>))>,
    old_id: Seq<char>,
    new_id: Seq<char>,
    n: int,
) -> Seq<(Seq<char>, (Seq<Seq<char>>, Seq<Seq<char>>))>
    decreases n,
{
    if n <= 0 {
        Seq::empty()
    } else {
        insert_key(
            sub_prose_rows(rows, old_id, new_id, n - 1),
            spec_substitute_id(rows[n - 1].0, old_id, new_id),
            (rows[n - 1].1.0.map_values(|l: Seq<char>| spec_substitute_link(l, old_id, new_id)), rows[n - 1].1.1),
        )
    }
}

/// `snap` as if `old_id` had always been `new_id`.
pub open spec fn spec_substitute_snapshot(snap: SnapshotV, old_id: Seq<char>, new_id: Seq<char>) -> SnapshotV {
    SnapshotV {
        claims: sub_claim_rows(snap.claims, old_id, new_id, snap.claims.len() as int),
        documents: snap.documents,
        diagnostics: snap.diagnostics.map_values(|d: DiagnosticV| sub_diag(d, old_id, new_id)),
        claim_prose: sub_prose_rows(snap.claim_prose, old_id, new_id, snap.claim_prose.len() as int),
    }
}

fn substitute_ids(v: &Vec<String>, old_id: &str, new_id: &str) -> (r: Vec<String>)
    ensures
        r.deep_view() == sub_ids(v.deep_view(), old_id@, new_id@),
{
    let mut out: Vec<String> = Vec::new();
    let mut i: usize = 0;
    while i < v.len()
        invariant
            i <= v@.len(),
            out.deep_view() == sub_ids(v.deep_view().take(i as int), old_id@, new_id@),
        decreases v@.len() - i,
    {
        let ghost prev = out.deep_view();
        let t = substitute_id(v[i].as_str(), old_id, new_id);
        out.push(t);
        proof {
            assert(out.deep_view() =~= prev.push(t@));
            assert(v.deep_view().take(i + 1) =~= v.deep_view().take(i as int).push(v@[i as int]@));
            assert(sub_ids(v.deep_view().take(i + 1), old_id@, new_id@) =~= sub_ids(v.deep_view().take(i as int), old_id@, new_id@).push(t@));
        }
        i = i + 1;
    }
    proof { assert(v.deep_view().take(v@.len() as int) =~= v.deep_view()); }
    out
}

fn substitute_links(v: &Vec<String>, old_id: &str, new_id: &str) -> (r: Vec<String>)
    ensures
        r.deep_view() == v.deep_view().map_values(|l: Seq<char>| spec_substitute_link(l, old_id@, new_id@)),
{
    let mut out: Vec<String> = Vec::new();
    let mut i: usize = 0;
    while i < v.len()
        invariant
            i <= v@.len(),
            out.deep_view() == v.deep_view().take(i as int).map_values(|l: Seq<char>| spec_substitute_link(l, old_id@, new_id@)),
        decreases v@.len() - i,
    {
        let ghost prev = out.deep_view();
        let t = substitute_link(v[i].as_str(), old_id, new_id);
        out.push(t);
        proof {
            assert(out.deep_view() =~= prev.push(t@));
            assert(v.deep_view().take(i + 1) =~= v.deep_view().take(i as int).push(v@[i as int]@));
            assert(v.deep_view().take(i + 1).map_values(|l: Seq<char>| spec_substitute_link(l, old_id@, new_id@))
                =~= v.deep_view().take(i as int).map_values(|l: Seq<char>| spec_substitute_link(l, old_id@, new_id@)).push(t@));
        }
        i = i + 1;
    }
    proof { assert(v.deep_view().take(v@.len() as int) =~= v.deep_view()); }
    out
}

/// Rewrite `snap` as if `old_id` had always been `new_id`: what the
/// snapshot of the renamed corpus must equal for the rename to be safe.
/// Ids (index keys, cited ids, prose keys) are substituted as whole
/// values, prose links as [`substitute_link`] says, and a diagnostic's
/// message by plain text replacement.
pub fn substitute_snapshot(snap: &Snapshot, old_id: &str, new_id: &str) -> (r: Snapshot)
    ensures
        r@ == spec_substitute_snapshot(snap@, old_id@, new_id@),
        keys_ascending(r@.claims),
        keys_ascending(r@.claim_prose),
{
    let ghost sv = snap@;
    let mut claims: Vec<(String, IndexClaim)> = Vec::new();
    let mut i: usize = 0;
    proof { assert(rows_view(claims@) =~= sub_claim_rows(sv.claims, old_id@, new_id@, 0)); }
    while i < snap.index.claims.len()
        invariant
            i <= snap.index.claims@.len(),
            sv == snap@,
            rows_view(claims@) == sub_claim_rows(sv.claims, old_id@, new_id@, i as int),
        decreases snap.index.claims@.len() - i,
    {
        let (id, c) = (&snap.index.claims[i].0, &snap.index.claims[i].1);
        assert(sv.claims[i as int] == (id@, c@));
        let row = IndexClaim {
            file: owned(c.file.as_str()),
            line: c.line,
            kind: owned(c.kind.as_str()),
            evaluator: owned(c.evaluator.as_str()),
            depends: substitute_ids(&c.depends, old_id, new_id),
            because: substitute_ids(&c.because, old_id, new_id),
        };
        assert(row@ == sub_index_claim(c@, old_id@, new_id@));
        insert_row(&mut claims, substitute_id(id.as_str(), old_id, new_id), row);
        i = i + 1;
    }

    let mut diagnostics: Vec<Diagnostic> = Vec::new();
    let mut j: usize = 0;
    while j < snap.diagnostics.len()
        invariant
            j <= snap.diagnostics@.len(),
            sv == snap@,
            diags_view(diagnostics@) == sv.diagnostics.take(j as int).map_values(|d: DiagnosticV| sub_diag(d, old_id@, new_id@)),
        decreases snap.diagnostics@.len() - j,
    {
        let d = &snap.diagnostics[j];
        assert(sv.diagnostics[j as int] == d@);
        let nd = Diagnostic {
            check: owned(d.check.as_str()),
            severity: d.severity,
            file: owned(d.file.as_str()),
            line: d.line,
            message: replace_text(d.message.as_str(), old_id, new_id),
        };
        let ghost prev = diags_view(diagnostics@);
        diagnostics.push(nd);
        proof {
            assert(diags_view(diagnostics@) =~= prev.push(nd@));
            assert(sv.diagnostics.take(j + 1) =~= sv.diagnostics.take(j as int).push(d@));
            assert(sv.diagnostics.take(j + 1).map_values(|d: DiagnosticV| sub_diag(d, old_id@, new_id@))
                =~= sv.diagnostics.take(j as int).map_values(|d: DiagnosticV| sub_diag(d, old_id@, new_id@)).push(nd@));
        }
        j = j + 1;
    }
    proof { assert(sv.diagnostics.take(snap.diagnostics@.len() as int) =~= sv.diagnostics); }

    let mut claim_prose: Vec<(String, ClaimProse)> = Vec::new();
    let mut k: usize = 0;
    proof { assert(rows_view(claim_prose@) =~= sub_prose_rows(sv.claim_prose, old_id@, new_id@, 0)); }
    while k < snap.claim_prose.len()
        invariant
            k <= snap.claim_prose@.len(),
            sv == snap@,
            rows_view(claim_prose@) == sub_prose_rows(sv.claim_prose, old_id@, new_id@, k as int),
        decreases snap.claim_prose@.len() - k,
    {
        let (id, p) = (&snap.claim_prose[k].0, &snap.claim_prose[k].1);
        assert(sv.claim_prose[k as int] == (id@, p@));
        let np = ClaimProse { links: substitute_links(&p.links, old_id, new_id), code: copy_strings(&p.code) };
        insert_row(&mut claim_prose, substitute_id(id.as_str(), old_id, new_id), np);
        k = k + 1;
    }

    let documents = snap.index.copy().documents;
    proof {
        lemma_sub_claim_rows_ascending(sv.claims, old_id@, new_id@, sv.claims.len() as int);
        lemma_sub_prose_rows_ascending(sv.claim_prose, old_id@, new_id@, sv.claim_prose.len() as int);
    }
    Snapshot { index: Index { claims, documents }, diagnostics, claim_prose }
}

proof fn lemma_sub_claim_rows_ascending(rows: Seq<(Seq<char>, IndexClaimV)>, old_id: Seq<char>, new_id: Seq<char>, n: int)
    ensures
        keys_ascending(sub_claim_rows(rows, old_id, new_id, n)),
    decreases n,
{
    if n > 0 {
        lemma_sub_claim_rows_ascending(rows, old_id, new_id, n - 1);
        lemma_insert_key(
            sub_claim_rows(rows, old_id, new_id, n - 1),
            spec_substitute_id(rows[n - 1].0, old_id, new_id),
            sub_index_claim(rows[n - 1].1, old_id, new_id),
        );
    }
}

proof fn lemma_sub_prose_rows_ascending(
    rows: Seq<(Seq<char>, (Seq<Seq<char>>, Seq<Seq<char>>))>,
    old_id: Seq<char>,
    new_id: Seq<char>,
    n: int,
)
    ensures
        keys_ascending(sub_prose_rows(rows, old_id, new_id, n)),
    decreases n,
{
    if n > 0 {
        lemma_sub_prose_rows_ascending(rows, old_id, new_id, n - 1);
        lemma_insert_key(
            sub_prose_rows(rows, old_id, new_id, n - 1),
            spec_substitute_id(rows[n - 1].0, old_id, new_id),
            (rows[n - 1].1.0.map_values(|l: Seq<char>| spec_substitute_link(l, old_id, new_id)), rows[n - 1].1.1),
        );
    }
}

// --- comparing snapshots -----------------------------------------------------

/// Whether two lists of texts are the same.
fn same_strings(a: &Vec<String>, b: &Vec<String>) -> (r: bool)
    ensures
        r == (a.deep_view() == b.deep_view()),
{
    if a.len() != b.len() {
        assert(a.deep_view().len() != b.deep_view().len());
        return false;
    }
    let mut i: usize = 0;
    while i < a.len()
        invariant
            a@.len() == b@.len(),
            i <= a@.len(),
            forall|j: int| 0 <= j < i ==> a.deep_view()[j] == b.deep_view()[j],
        decreases a@.len() - i,
    {
        if !str_eq(a[i].as_str(), b[i].as_str()) {
            assert(a.deep_view()[i as int] != b.deep_view()[i as int]);
            return false;
        }
        i = i + 1;
    }
    proof { assert(a.deep_view() =~= b.deep_view()); }
    true
}

fn same_index_claim(a: &IndexClaim, b: &IndexClaim) -> (r: bool)
    ensures
        r == (a@ == b@),
{
    str_eq(a.file.as_str(), b.file.as_str()) && a.line == b.line && str_eq(a.kind.as_str(), b.kind.as_str())
        && str_eq(a.evaluator.as_str(), b.evaluator.as_str()) && same_strings(&a.depends, &b.depends)
        && same_strings(&a.because, &b.because)
}

fn same_prose(a: &ClaimProse, b: &ClaimProse) -> (r: bool)
    ensures
        r == (a@ == b@),
{
    same_strings(&a.links, &b.links) && same_strings(&a.code, &b.code)
}

fn same_diagnostic(a: &Diagnostic, b: &Diagnostic) -> (r: bool)
    ensures
        r == (a@ == b@),
{
    str_eq(a.check.as_str(), b.check.as_str()) && a.severity == b.severity && str_eq(a.file.as_str(), b.file.as_str())
        && a.line == b.line && str_eq(a.message.as_str(), b.message.as_str())
}

fn same_diagnostics(a: &Vec<Diagnostic>, b: &Vec<Diagnostic>) -> (r: bool)
    ensures
        r == (diags_view(a@) == diags_view(b@)),
{
    if a.len() != b.len() {
        assert(diags_view(a@).len() != diags_view(b@).len());
        return false;
    }
    let mut i: usize = 0;
    while i < a.len()
        invariant
            a@.len() == b@.len(),
            i <= a@.len(),
            forall|j: int| 0 <= j < i ==> diags_view(a@)[j] == diags_view(b@)[j],
        decreases a@.len() - i,
    {
        if !same_diagnostic(&a[i], &b[i]) {
            assert(diags_view(a@)[i as int] != diags_view(b@)[i as int]);
            return false;
        }
        i = i + 1;
    }
    proof { assert(diags_view(a@) =~= diags_view(b@)); }
    true
}

fn same_claim_rows(a: &Vec<(String, IndexClaim)>, b: &Vec<(String, IndexClaim)>) -> (r: bool)
    ensures
        r == (rows_view(a@) == rows_view(b@)),
{
    if a.len() != b.len() {
        assert(rows_view(a@).len() != rows_view(b@).len());
        return false;
    }
    let mut i: usize = 0;
    while i < a.len()
        invariant
            a@.len() == b@.len(),
            i <= a@.len(),
            forall|j: int| 0 <= j < i ==> rows_view(a@)[j] == rows_view(b@)[j],
        decreases a@.len() - i,
    {
        if !str_eq(a[i].0.as_str(), b[i].0.as_str()) || !same_index_claim(&a[i].1, &b[i].1) {
            assert(rows_view(a@)[i as int] != rows_view(b@)[i as int]);
            return false;
        }
        i = i + 1;
    }
    proof { assert(rows_view(a@) =~= rows_view(b@)); }
    true
}

fn same_document_rows(a: &Vec<(String, IndexDocument)>, b: &Vec<(String, IndexDocument)>) -> (r: bool)
    ensures
        r == (rows_view(a@) == rows_view(b@)),
{
    if a.len() != b.len() {
        assert(rows_view(a@).len() != rows_view(b@).len());
        return false;
    }
    let mut i: usize = 0;
    while i < a.len()
        invariant
            a@.len() == b@.len(),
            i <= a@.len(),
            forall|j: int| 0 <= j < i ==> rows_view(a@)[j] == rows_view(b@)[j],
        decreases a@.len() - i,
    {
        if !str_eq(a[i].0.as_str(), b[i].0.as_str()) || !str_eq(a[i].1.file.as_str(), b[i].1.file.as_str())
            || !str_eq(a[i].1.genre.as_str(), b[i].1.genre.as_str()) {
            assert(rows_view(a@)[i as int] != rows_view(b@)[i as int]);
            return false;
        }
        i = i + 1;
    }
    proof { assert(rows_view(a@) =~= rows_view(b@)); }
    true
}

fn same_prose_rows(a: &Vec<(String, ClaimProse)>, b: &Vec<(String, ClaimProse)>) -> (r: bool)
    ensures
        r == (rows_view(a@) == rows_view(b@)),
{
    if a.len() != b.len() {
        assert(rows_view(a@).len() != rows_view(b@).len());
        return false;
    }
    let mut i: usize = 0;
    while i < a.len()
        invariant
            a@.len() == b@.len(),
            i <= a@.len(),
            forall|j: int| 0 <= j < i ==> rows_view(a@)[j] == rows_view(b@)[j],
        decreases a@.len() - i,
    {
        if !str_eq(a[i].0.as_str(), b[i].0.as_str()) || !same_prose(&a[i].1, &b[i].1) {
            assert(rows_view(a@)[i as int] != rows_view(b@)[i as int]);
            return false;
        }
        i = i + 1;
    }
    proof { assert(rows_view(a@) =~= rows_view(b@)); }
    true
}

/// Whether two snapshots are the same, part for part.
pub fn same_snapshot(a: &Snapshot, b: &Snapshot) -> (r: bool)
    ensures
        r == (a@ == b@),
{
    same_claim_rows(&a.index.claims, &b.index.claims) && same_document_rows(&a.index.documents, &b.index.documents)
        && same_diagnostics(&a.diagnostics, &b.diagnostics) && same_prose_rows(&a.claim_prose, &b.claim_prose)
}

// --- where two snapshots disagree ------------------------------------------

/// `{:?}` of a list of texts: `["a", "b"]`.
pub open spec fn debug_list(v: Seq<Seq<char>>) -> Seq<char> {
    "["@ + join_sep(v.map_values(|t: Seq<char>| debug_quoted(t)), ", "@, v.len() as int) + "]"@
}

/// `{:?}` of an index row.
pub open spec fn debug_index_claim(c: IndexClaimV) -> Seq<char> {
    "IndexClaim { file: "@ + debug_quoted(c.file) + ", line: "@ + spec_decimal(c.line as nat) + ", kind: "@
        + debug_quoted(c.kind) + ", evaluator: "@ + debug_quoted(c.evaluator) + ", depends: "@ + debug_list(c.depends)
        + ", because: "@ + debug_list(c.because) + " }"@
}

pub open spec fn severity_name(s: Severity) -> Seq<char> {
    match s {
        Severity::Fail => "Fail"@,
        Severity::Warn => "Warn"@,
    }
}

/// One diagnostic as an element of `{:#?}` of a list of them.
pub open spec fn pretty_diag(d: DiagnosticV) -> Seq<char> {
    "    Diagnostic {\n        check: "@ + debug_quoted(d.check) + ",\n        severity: "@ + severity_name(d.severity)
        + ",\n        file: "@ + debug_quoted(d.file) + ",\n        line: "@ + spec_decimal(d.line as nat)
        + ",\n        message: "@ + debug_quoted(d.message) + ",\n    },\n"@
}

pub open spec fn pretty_diags_from(v: Seq<DiagnosticV>, n: int) -> Seq<char>
    decreases n,
{
    if n <= 0 {
        Seq::empty()
    } else {
        pretty_diags_from(v, n - 1) + pretty_diag(v[n - 1])
    }
}

/// `{:#?}` of a list of diagnostics.
pub open spec fn pretty_diags(v: Seq<DiagnosticV>) -> Seq<char> {
    if v.len() == 0 {
        "[]"@
    } else {
        "[\n"@ + pretty_diags_from(v, v.len() as int) + "]"@
    }
}

fn debug_list_text(v: &Vec<String>) -> (r: String)
    ensures
        r@ == debug_list(v.deep_view()),
{
    let mut items: Vec<String> = Vec::new();
    let mut i: usize = 0;
    while i < v.len()
        invariant
            i <= v@.len(),
            items.deep_view() == v.deep_view().take(i as int).map_values(|t: Seq<char>| debug_quoted(t)),
        decreases v@.len() - i,
    {
        let ghost prev = items.deep_view();
        let t = debug_text(v[i].as_str());
        items.push(t);
        proof {
            assert(items.deep_view() =~= prev.push(t@));
            assert(v.deep_view().take(i + 1) =~= v.deep_view().take(i as int).push(v@[i as int]@));
            assert(v.deep_view().take(i + 1).map_values(|t: Seq<char>| debug_quoted(t))
                =~= v.deep_view().take(i as int).map_values(|t: Seq<char>| debug_quoted(t)).push(t@));
        }
        i = i + 1;
    }
    proof { assert(v.deep_view().take(v@.len() as int) =~= v.deep_view()); }
    let mut out = String::new();
    out.append("[");
    let body = join_with(&items, ", ");
    out.append(body.as_str());
    out.append("]");
    out
}

fn debug_index_claim_text(c: &IndexClaim) -> (r: String)
    ensures
        r@ == debug_index_claim(c@),
{
    let mut out = String::new();
    out.append("IndexClaim { file: ");
    out.append(debug_text(c.file.as_str()).as_str());
    out.append(", line: ");
    out.append(decimal_text(c.line).as_str());
    out.append(", kind: ");
    out.append(debug_text(c.kind.as_str()).as_str());
    out.append(", evaluator: ");
    out.append(debug_text(c.evaluator.as_str()).as_str());
    out.append(", depends: ");
    out.append(debug_list_text(&c.depends).as_str());
    out.append(", because: ");
    out.append(debug_list_text(&c.because).as_str());
    out.append(" }");
    out
}

fn pretty_diag_text(d: &Diagnostic) -> (r: String)
    ensures
        r@ == pretty_diag(d@),
{
    let mut out = String::new();
    out.append("    Diagnostic {\n        check: ");
    out.append(debug_text(d.check.as_str()).as_str());
    out.append(",\n        severity: ");
    match d.severity {
        Severity::Fail => out.append("Fail"),
        Severity::Warn => out.append("Warn"),
    }
    out.append(",\n        file: ");
    out.append(debug_text(d.file.as_str()).as_str());
    out.append(",\n        line: ");
    out.append(decimal_text(d.line).as_str());
    out.append(",\n        message: ");
    out.append(debug_text(d.message.as_str()).as_str());
    out.append(",\n    },\n");
    out
}

fn pretty_diags_text(v: &Vec<Diagnostic>) -> (r: String)
    ensures
        r@ == pretty_diags(diags_view(v@)),
{
    if v.len() == 0 {
        return "[]".to_string();
    }
    let ghost dv = diags_view(v@);
    let mut out = String::new();
    out.append("[\n");
    let ghost head = out@;
    let mut i: usize = 0;
    while i < v.len()
        invariant
            i <= v@.len(),
            dv == diags_view(v@),
            out@ == head + pretty_diags_from(dv, i as int),
        decreases v@.len() - i,
    {
        assert(dv[i as int] == v@[i as int]@);
        out.append(pretty_diag_text(&v[i]).as_str());
        i = i + 1;
    }
    out.append("]");
    out
}

/// The first row from `i` on with key `k`.
pub open spec fn key_index<V>(m: Seq<(Seq<char>, V)>, k: Seq<char>, i: int) -> Option<int>
    decreases m.len() - i,
{
    if i < 0 || i >= m.len() {
        None
    } else if m[i].0 == k {
        Some(i)
    } else {
        key_index(m, k, i + 1)
    }
}

fn key_position<V: View>(m: &Vec<(String, V)>, k: &String) -> (r: Option<usize>)
    ensures
        match r {
            Some(j) => key_index(rows_view(m@), k@, 0) == Some(j as int) && j < m@.len(),
            None => key_index(rows_view(m@), k@, 0) is None,
        },
{
    let ghost rv = rows_view(m@);
    let mut i: usize = 0;
    while i < m.len()
        invariant
            i <= m@.len(),
            rv == rows_view(m@),
            key_index(rv, k@, 0) == key_index(rv, k@, i as int),
        decreases m@.len() - i,
    {
        assert(rv[i as int].0 == m@[i as int].0@);
        if str_eq(m[i].0.as_str(), k.as_str()) {
            return Some(i);
        }
        i = i + 1;
    }
    None
}

/// `pre`, the key quoted, and `post`, for each row among the first `n` of
/// `e` whose key `a` lacks.
pub open spec fn absent_lines<V, W>(e: Seq<(Seq<char>, V)>, a: Seq<(Seq<char>, W)>, pre: Seq<char>, post: Seq<char>, n: int) -> Seq<Seq<char>>
    decreases n,
{
    if n <= 0 {
        Seq::empty()
    } else {
        absent_lines(e, a, pre, post, n - 1) + if key_index(a, e[n - 1].0, 0) is None {
            seq![pre + debug_quoted(e[n - 1].0) + post]
        } else {
            Seq::empty()
        }
    }
}

fn absent_lines_text<V: View, W: View>(e: &Vec<(String, V)>, a: &Vec<(String, W)>, pre: &str, post: &str, out: &mut Vec<String>)
    ensures
        final(out).deep_view() == old(out).deep_view() + absent_lines(rows_view(e@), rows_view(a@), pre@, post@, e@.len() as int),
{
    let ghost ev = rows_view(e@);
    let ghost o = out.deep_view();
    let mut i: usize = 0;
    while i < e.len()
        invariant
            i <= e@.len(),
            ev == rows_view(e@),
            out.deep_view() == o + absent_lines(ev, rows_view(a@), pre@, post@, i as int),
        decreases e@.len() - i,
    {
        assert(ev[i as int].0 == e@[i as int].0@);
        let ghost prev = out.deep_view();
        if key_position(a, &e[i].0).is_none() {
            let mut line = String::new();
            line.append(pre);
            line.append(debug_text(e[i].0.as_str()).as_str());
            line.append(post);
            out.push(line);
            proof { assert(out.deep_view() =~= prev.push(line@)); }
        }
        i = i + 1;
    }
}

pub open spec fn claim_diverged(k: Seq<char>, e: IndexClaimV, a: IndexClaimV) -> Seq<char> {
    "  index: claim "@ + debug_quoted(k) + " diverged:\n    expected "@ + debug_index_claim(e) + "\n    actual   "@
        + debug_index_claim(a)
}

/// A line for each of the first `n` claim rows of `e` whose key `a` has
/// with another row.
pub open spec fn claim_diverged_lines(e: Seq<(Seq<char>, IndexClaimV)>, a: Seq<(Seq<char>, IndexClaimV)>, n: int) -> Seq<Seq<char>>
    decreases n,
{
    if n <= 0 {
        Seq::empty()
    } else {
        claim_diverged_lines(e, a, n - 1) + match key_index(a, e[n - 1].0, 0) {
            Some(j) => if e[n - 1].1 != a[j].1 {
                seq![claim_diverged(e[n - 1].0, e[n - 1].1, a[j].1)]
            } else {
                Seq::empty()
            },
            None => Seq::empty(),
        }
    }
}

pub open spec fn prose_diverged(k: Seq<char>, e: (Seq<Seq<char>>, Seq<Seq<char>>), a: (Seq<Seq<char>>, Seq<Seq<char>>)) -> Seq<char> {
    "  claim "@ + debug_quoted(k) + " prose diverged:\n    expected links="@ + debug_list(e.0) + " code="@ + debug_list(e.1)
        + "\n    actual   links="@ + debug_list(a.0) + " code="@ + debug_list(a.1)
}

/// A line for each of the first `n` prose rows of `e` whose key `a` has
/// with other prose.
pub open spec fn prose_diverged_lines(
    e: Seq<(Seq<char>, (Seq<Seq<char>>, Seq<Seq<char>>))>,
    a: Seq<(Seq<char>, (Seq<Seq<char>>, Seq<Seq<char>>))>,
    n: int,
) -> Seq<Seq<char>>
    decreases n,
{
    if n <= 0 {
        Seq::empty()
    } else {
        prose_diverged_lines(e, a, n - 1) + match key_index(a, e[n - 1].0, 0) {
            Some(j) => if e[n - 1].1 != a[j].1 {
                seq![prose_diverged(e[n - 1].0, e[n - 1].1, a[j].1)]
            } else {
                Seq::empty()
            },
            None => Seq::empty(),
        }
    }
}

pub open spec fn diags_diverged(e: Seq<DiagnosticV>, a: Seq<DiagnosticV>) -> Seq<char> {
    "  diagnostics diverged:\n    expected "@ + pretty_diags(e) + "\n    actual   "@ + pretty_diags(a)
}

/// Every line of the account of where `expected` and `actual` disagree,
/// in order: index claims missing, then unexpected, then changed; the
/// diagnostics if they differ; then claims whose prose changed, is
/// missing, or is unexpected. Rows are taken in order, which in a
/// snapshot is ascending order of their keys.
pub open spec fn diff_lines(expected: SnapshotV, actual: SnapshotV) -> Seq<Seq<char>> {
    absent_lines(expected.claims, actual.claims, "  index: claim "@, " expected but missing after rename"@, expected.claims.len() as int)
        + absent_lines(actual.claims, expected.claims, "  index: claim "@, " present after rename but not expected"@, actual.claims.len() as int)
        + claim_diverged_lines(expected.claims, actual.claims, expected.claims.len() as int)
        + (if expected.diagnostics != actual.diagnostics {
            seq![diags_diverged(expected.diagnostics, actual.diagnostics)]
        } else {
            Seq::empty()
        })
        + prose_diverged_lines(expected.claim_prose, actual.claim_prose, expected.claim_prose.len() as int)
        + absent_lines(expected.claim_prose, actual.claim_prose, "  claim "@, " prose expected but missing after rename"@, expected.claim_prose.len() as int)
        + absent_lines(actual.claim_prose, expected.claim_prose, "  claim "@, " prose present after rename but not expected"@, actual.claim_prose.len() as int)
}

pub open spec fn spec_diff_snapshots(expected: SnapshotV, actual: SnapshotV) -> Seq<char> {
    let lines = diff_lines(expected, actual);
    join_sep(lines, "\n"@, lines.len() as int)
}

fn claim_diverged_text(e: &Vec<(String, IndexClaim)>, a: &Vec<(String, IndexClaim)>, out: &mut Vec<String>)
    ensures
        final(out).deep_view() == old(out).deep_view() + claim_diverged_lines(rows_view(e@), rows_view(a@), e@.len() as int),
{
    let ghost ev = rows_view(e@);
    let ghost av = rows_view(a@);
    let ghost o = out.deep_view();
    let mut i: usize = 0;
    while i < e.len()
        invariant
            i <= e@.len(),
            ev == rows_view(e@),
            av == rows_view(a@),
            out.deep_view() == o + claim_diverged_lines(ev, av, i as int),
        decreases e@.len() - i,
    {
        assert(ev[i as int] == (e@[i as int].0@, e@[i as int].1@));
        let ghost prev = out.deep_view();
        match key_position(a, &e[i].0) {
            Some(j) => {
                assert(av[j as int] == (a@[j as int].0@, a@[j as int].1@));
                if !same_index_claim(&e[i].1, &a[j].1) {
                    let mut line = String::new();
                    line.append("  index: claim ");
                    line.append(debug_text(e[i].0.as_str()).as_str());
                    line.append(" diverged:\n    expected ");
                    line.append(debug_index_claim_text(&e[i].1).as_str());
                    line.append("\n    actual   ");
                    line.append(debug_index_claim_text(&a[j].1).as_str());
                    out.push(line);
                    proof { assert(out.deep_view() =~= prev.push(line@)); }
                }
            },
            None => {},
        }
        i = i + 1;
    }
}

fn prose_diverged_text(e: &Vec<(String, ClaimProse)>, a: &Vec<(String, ClaimProse)>, out: &mut Vec<String>)
    ensures
        final(out).deep_view() == old(out).deep_view() + prose_diverged_lines(rows_view(e@), rows_view(a@), e@.len() as int),
{
    let ghost ev = rows_view(e@);
    let ghost av = rows_view(a@);
    let ghost o = out.deep_view();
    let mut i: usize = 0;
    while i < e.len()
        invariant
            i <= e@.len(),
            ev == rows_view(e@),
            av == rows_view(a@),
            out.deep_view() == o + prose_diverged_lines(ev, av, i as int),
        decreases e@.len() - i,
    {
        assert(ev[i as int] == (e@[i as int].0@, e@[i as int].1@));
        let ghost prev = out.deep_view();
        match key_position(a, &e[i].0) {
            Some(j) => {
                assert(av[j as int] == (a@[j as int].0@, a@[j as int].1@));
                if !same_prose(&e[i].1, &a[j].1) {
                    let mut line = String::new();
                    line.append("  claim ");
                    line.append(debug_text(e[i].0.as_str()).as_str());
                    line.append(" prose diverged:\n    expected links=");
                    line.append(debug_list_text(&e[i].1.links).as_str());
                    line.append(" code=");
                    line.append(debug_list_text(&e[i].1.code).as_str());
                    line.append("\n    actual   links=");
                    line.append(debug_list_text(&a[j].1.links).as_str());
                    line.append(" code=");
                    line.append(debug_list_text(&a[j].1.code).as_str());
                    out.push(line);
                    proof { assert(out.deep_view() =~= prev.push(line@)); }
                }
            },
            None => {},
        }
        i = i + 1;
    }
}

/// A readable account of exactly where `expected` (the original's
/// snapshot with the id substituted) and `actual` (the renamed corpus's)
/// disagree, a line per difference.
pub fn diff_snapshots(expected: &Snapshot, actual: &Snapshot) -> (r: String)
    ensures
        r@ == spec_diff_snapshots(expected@, actual@),
{
    let ghost e = expected@;
    let ghost a = actual@;
    let mut lines: Vec<String> = Vec::new();
    let ghost l0 = lines.deep_view();
    absent_lines_text(&expected.index.claims, &actual.index.claims, "  index: claim ", " expected but missing after rename", &mut lines);
    absent_lines_text(&actual.index.claims, &expected.index.claims, "  index: claim ", " present after rename but not expected", &mut lines);
    claim_diverged_text(&expected.index.claims, &actual.index.claims, &mut lines);
    if !same_diagnostics(&expected.diagnostics, &actual.diagnostics) {
        let ghost prev = lines.deep_view();
        let mut line = String::new();
        line.append("  diagnostics diverged:\n    expected ");
        line.append(pretty_diags_text(&expected.diagnostics).as_str());
        line.append("\n    actual   ");
        line.append(pretty_diags_text(&actual.diagnostics).as_str());
        lines.push(line);
        proof { assert(lines.deep_view() =~= prev.push(line@)); }
    }
    prose_diverged_text(&expected.claim_prose, &actual.claim_prose, &mut lines);
    absent_lines_text(&expected.claim_prose, &actual.claim_prose, "  claim ", " prose expected but missing after rename", &mut lines);
    absent_lines_text(&actual.claim_prose, &expected.claim_prose, "  claim ", " prose present after rename but not expected", &mut lines);
    proof {
        assert(l0 =~= Seq::<Seq<char>>::empty());
        assert(lines.deep_view() =~= diff_lines(e, a));
    }
    join_with(&lines, "\n")
}

/// The last step of a rename: the register's snapshot of the renamed
/// corpus (`after`) must be the original's (`before`) with `old_id`
/// substituted by `new_id`; anything else refuses the rename with an
/// account of the differences.
pub fn verify_rename(before: &Snapshot, after: &Snapshot, old_id: &str, new_id: &str) -> (r: Result<(), RenameError>)
    ensures
        spec_substitute_snapshot(before@, old_id@, new_id@) == after@ ==> r is Ok,
        spec_substitute_snapshot(before@, old_id@, new_id@) != after@ ==> (r matches Err(e)
            && e@ == RenameErrorV::InvariantDiverged(spec_diff_snapshots(spec_substitute_snapshot(before@, old_id@, new_id@), after@))),
{
    let expected = substitute_snapshot(before, old_id, new_id);
    if same_snapshot(&expected, after) {
        Ok(())
    } else {
        Err(RenameError::InvariantDiverged(diff_snapshots(&expected, after)))
    }
}

/// The staged rename's decision: `plan` (from [`plan_rename`]) stands only
/// when the register's snapshot of the corpus with `plan`'s changes
/// applied (`after`) is the original's snapshot (`before`) with the old id
/// substituted by the new one. Otherwise the rename is refused with an
/// account of the differences, and nothing is to be written.
pub fn stage_rename(plan: RenamePlan, before: &Snapshot, after: &Snapshot) -> (r: Result<RenamePlan, RenameError>)
    ensures
        spec_substitute_snapshot(before@, plan.old_id@, plan.new_id@) == after@ ==> (r matches Ok(p) && p.old_id@
            == plan.old_id@ && p.new_id@ == plan.new_id@ && rows_view(p.changes@) == rows_view(plan.changes@)),
        spec_substitute_snapshot(before@, plan.old_id@, plan.new_id@) != after@ ==> (r matches Err(e) && e@
            == RenameErrorV::InvariantDiverged(
            spec_diff_snapshots(spec_substitute_snapshot(before@, plan.old_id@, plan.new_id@), after@),
        )),
{
    match verify_rename(before, after, plan.old_id.as_str(), plan.new_id.as_str()) {
        Ok(()) => Ok(plan),
        Err(e) => Err(e),
    }
}

proof fn lemma_replace_same(s: Seq<char>, p: Seq<char>, i: int)
    requires
        0 <= i <= s.len(),
    ensures
        replace_from(s, p, p, i) == s.skip(i),
    decreases s.len() - i,
{
    if i == s.len() {
        assert(s.skip(i) =~= Seq::<char>::empty());
        if p.len() == 0 {
            assert(p =~= Seq::<char>::empty());
        }
    } else if p.len() == 0 {
        lemma_replace_same(s, p, i + 1);
        assert(p + seq![s[i]] + s.skip(i + 1) =~= s.skip(i));
    } else if occurs_at(s, p, i) {
        lemma_replace_same(s, p, i + p.len());
        assert(p + s.skip(i + p.len()) =~= s.skip(i));
    } else {
        lemma_replace_same(s, p, i + 1);
        assert(seq![s[i]] + s.skip(i + 1) =~= s.skip(i));
    }
}

proof fn lemma_last_hash(s: Seq<char>, n: int)
    requires
        0 <= n <= s.len(),
    ensures
        last_hash(s, n) >= 0 ==> last_hash(s, n) < n && s[last_hash(s, n)] == '#',
        last_hash(s, n) >= -1,
    decreases n,
{
    if n > 0 && s[n - 1] != '#' {
        lemma_last_hash(s, n - 1);
    }
}

proof fn lemma_link_same(l: Seq<char>, id: Seq<char>)
    ensures
        spec_substitute_link(l, id, id) == l,
{
    let h = last_hash(l, l.len() as int);
    lemma_last_hash(l, l.len() as int);
    if l != id && h >= 0 && l.skip(h + 1) == id {
        reveal_strlit("#");
        assert(l.take(h) + "#"@ + id =~= l);
    }
}

proof fn lemma_sub_claim_rows_same(m: Seq<(Seq<char>, IndexClaimV)>, id: Seq<char>, n: int)
    requires
        keys_ascending(m),
        0 <= n <= m.len(),
    ensures
        sub_claim_rows(m, id, id, n) == m.take(n),
    decreases n,
{
    if n == 0 {
        assert(m.take(0) =~= Seq::<(Seq<char>, IndexClaimV)>::empty());
    } else {
        lemma_sub_claim_rows_same(m, id, n - 1);
        let c = m[n - 1].1;
        assert(sub_ids(c.depends, id, id) =~= c.depends);
        assert(sub_ids(c.because, id, id) =~= c.because);
        assert(sub_index_claim(c, id, id) == c);
        let t = m.take(n - 1);
        if n > 1 {
            assert(t.last() == m[n - 2]);
            assert(text_lt(m[n - 2].0, m[n - 1].0));
            lemma_text_lt_irreflexive(m[n - 1].0);
        } else {
            assert(insert_key(t, m[n - 1].0, c) =~= t.push(m[n - 1]));
        }
        assert(insert_key(t, m[n - 1].0, c) == t.push(m[n - 1]));
        assert(t.push(m[n - 1]) =~= m.take(n));
    }
}

proof fn lemma_sub_prose_rows_same(m: Seq<(Seq<char>, (Seq<Seq<char>>, Seq<Seq<char>>))>, id: Seq<char>, n: int)
    requires
        keys_ascending(m),
        0 <= n <= m.len(),
    ensures
        sub_prose_rows(m, id, id, n) == m.take(n),
    decreases n,
{
    if n == 0 {
        assert(m.take(0) =~= Seq::<(Seq<char>, (Seq<Seq<char>>, Seq<Seq<char>>))>::empty());
    } else {
        lemma_sub_prose_rows_same(m, id, n - 1);
        let p = m[n - 1].1;
        assert forall|k: int| 0 <= k < p.0.len() implies spec_substitute_link(#[trigger] p.0[k], id, id) == p.0[k] by {
            lemma_link_same(p.0[k], id);
        }
        assert(p.0.map_values(|l: Seq<char>| spec_substitute_link(l, id, id)) =~= p.0);
        let t = m.take(n - 1);
        if n > 1 {
            assert(t.last() == m[n - 2]);
            assert(text_lt(m[n - 2].0, m[n - 1].0));
            lemma_text_lt_irreflexive(m[n - 1].0);
        } else {
            assert(insert_key(t, m[n - 1].0, p) =~= t.push(m[n - 1]));
        }
        assert(insert_key(t, m[n - 1].0, p) == t.push(m[n - 1]));
        assert(t.push(m[n - 1]) =~= m.take(n));
    }
}

/// `ids` with every occurrence of `old_id` read as `new_id`, element by
/// element.
pub open spec fn ids_renamed(orig: Seq<Seq<char>>, res: Seq<Seq<char>>, old_id: Seq<char>, new_id: Seq<char>) -> bool {
    &&& res.len() == orig.len()
    &&& forall|t: int| 0 <= t < orig.len() ==> #[trigger] res[t] == (if orig[t] == old_id { new_id } else { orig[t] })
}

/// `res` is the index row `orig` with `old_id` renamed to `new_id`: in its
/// key and in every id it cites, through `depends` and `because` alike,
/// and nothing else changed.
pub open spec fn row_renamed(orig: (Seq<char>, IndexClaimV), res: (Seq<char>, IndexClaimV), old_id: Seq<char>, new_id: Seq<char>) -> bool {
    &&& res.0 == (if orig.0 == old_id { new_id } else { orig.0 })
    &&& res.1.file == orig.1.file
    &&& res.1.line == orig.1.line
    &&& res.1.kind == orig.1.kind
    &&& res.1.evaluator == orig.1.evaluator
    &&& ids_renamed(orig.1.depends, res.1.depends, old_id, new_id)
    &&& ids_renamed(orig.1.because, res.1.because, old_id, new_id)
}

proof fn lemma_insert_key_elems<V>(m: Seq<(Seq<char>, V)>, k: Seq<char>, v: V)
    ensures
        forall|i: int| 0 <= i < insert_key(m, k, v).len() ==> #[trigger] insert_key(m, k, v)[i] == (k, v) || exists|j: int| 0 <= j < m.len() && m[j] == insert_key(m, k, v)[i],
    decreases m.len(),
{
    let r = insert_key(m, k, v);
    if m.len() == 0 {
    } else if m.last().0 == k {
        assert forall|i: int| 0 <= i < r.len() implies #[trigger] r[i] == (k, v) || exists|j: int| 0 <= j < m.len() && m[j] == r[i] by {
            if i < m.len() - 1 {
                assert(r[i] == m[i]);
            }
        }
    } else if text_lt(m.last().0, k) {
        assert forall|i: int| 0 <= i < r.len() implies #[trigger] r[i] == (k, v) || exists|j: int| 0 <= j < m.len() && m[j] == r[i] by {
            if i < m.len() {
                assert(r[i] == m[i]);
            }
        }
    } else {
        let p = insert_key(m.drop_last(), k, v);
        lemma_insert_key_elems(m.drop_last(), k, v);
        assert forall|i: int| 0 <= i < r.len() implies #[trigger] r[i] == (k, v) || exists|j: int| 0 <= j < m.len() && m[j] == r[i] by {
            if i < p.len() {
                assert(r[i] == p[i]);
                if p[i] != (k, v) {
                    let j = choose|j: int| 0 <= j < m.drop_last().len() && m.drop_last()[j] == p[i];
                    assert(m[j] == r[i]);
                }
            } else {
                assert(r[i] == m[m.len() - 1]);
            }
        }
    }
}

proof fn lemma_sub_claim_rows_renamed(rows: Seq<(Seq<char>, IndexClaimV)>, old_id: Seq<char>, new_id: Seq<char>, n: int)
    requires
        0 <= n <= rows.len(),
    ensures
        forall|i: int| 0 <= i < sub_claim_rows(rows, old_id, new_id, n).len() ==> exists|j: int| 0 <= j < n && row_renamed(rows[j], #[trigger] sub_claim_rows(rows, old_id, new_id, n)[i], old_id, new_id),
    decreases n,
{
    if n > 0 {
        lemma_sub_claim_rows_renamed(rows, old_id, new_id, n - 1);
        let prev = sub_claim_rows(rows, old_id, new_id, n - 1);
        let key = spec_substitute_id(rows[n - 1].0, old_id, new_id);
        let val = sub_index_claim(rows[n - 1].1, old_id, new_id);
        lemma_insert_key_elems(prev, key, val);
        let cur = sub_claim_rows(rows, old_id, new_id, n);
        assert forall|i: int| 0 <= i < cur.len() implies exists|j: int| 0 <= j < n && row_renamed(rows[j], #[trigger] cur[i], old_id, new_id) by {
            if cur[i] == (key, val) {
                assert(row_renamed(rows[n - 1], cur[i], old_id, new_id));
            } else {
                let j = choose|j: int| 0 <= j < prev.len() && prev[j] == cur[i];
                assert(exists|j2: int| 0 <= j2 < n - 1 && row_renamed(rows[j2], #[trigger] prev[j], old_id, new_id));
            }
        }
    }
}

/// `res` is the prose row `orig` with `old_id` renamed in its key, as many
/// links as before, and its code spans unchanged.
pub open spec fn prose_row_renamed(
    orig: (Seq<char>, (Seq<Seq<char>>, Seq<Seq<char>>)),
    res: (Seq<char>, (Seq<Seq<char>>, Seq<Seq<char>>)),
    old_id: Seq<char>,
    new_id: Seq<char>,
) -> bool {
    &&& res.0 == (if orig.0 == old_id { new_id } else { orig.0 })
    &&& res.1.0.len() == orig.1.0.len()
    &&& res.1.1 == orig.1.1
}

proof fn lemma_sub_prose_rows_renamed(rows: Seq<(Seq<char>, (Seq<Seq<char>>, Seq<Seq<char>>))>, old_id: Seq<char>, new_id: Seq<char>, n: int)
    requires
        0 <= n <= rows.len(),
    ensures
        forall|i: int| 0 <= i < sub_prose_rows(rows, old_id, new_id, n).len() ==> exists|j: int| 0 <= j < n && prose_row_renamed(rows[j], #[trigger] sub_prose_rows(rows, old_id, new_id, n)[i], old_id, new_id),
    decreases n,
{
    if n > 0 {
        lemma_sub_prose_rows_renamed(rows, old_id, new_id, n - 1);
        let prev = sub_prose_rows(rows, old_id, new_id, n - 1);
        let key = spec_substitute_id(rows[n - 1].0, old_id, new_id);
        let val = (rows[n - 1].1.0.map_values(|l: Seq<char>| spec_substitute_link(l, old_id, new_id)), rows[n - 1].1.1);
        lemma_insert_key_elems(prev, key, val);
        let cur = sub_prose_rows(rows, old_id, new_id, n);
        assert forall|i: int| 0 <= i < cur.len() implies exists|j: int| 0 <= j < n && prose_row_renamed(rows[j], #[trigger] cur[i], old_id, new_id) by {
            if cur[i] == (key, val) {
                assert(prose_row_renamed(rows[n - 1], cur[i], old_id, new_id));
            } else {
                let j = choose|j: int| 0 <= j < prev.len() && prev[j] == cur[i];
                assert(exists|j2: int| 0 <= j2 < n - 1 && prose_row_renamed(rows[j2], #[trigger] prev[j], old_id, new_id));
            }
        }
    }
}

/// A substituted snapshot keeps each diagnostic where it was, of the same
/// check and severity at the same place (only its message is rewritten),
/// and each prose row is one of the original's under its renamed id, with
/// as many links and the same code spans.
pub proof fn lemma_substitute_keeps_places(snap: SnapshotV, old_id: Seq<char>, new_id: Seq<char>)
    ensures
        forall|k: int| 0 <= k < snap.diagnostics.len() ==> {
            let d = #[trigger] spec_substitute_snapshot(snap, old_id, new_id).diagnostics[k];
            &&& d.check == snap.diagnostics[k].check
            &&& d.severity == snap.diagnostics[k].severity
            &&& d.file == snap.diagnostics[k].file
            &&& d.line == snap.diagnostics[k].line
        },
        forall|i: int| 0 <= i < spec_substitute_snapshot(snap, old_id, new_id).claim_prose.len() ==> exists|j: int| 0 <= j < snap.claim_prose.len() && prose_row_renamed(snap.claim_prose[j], #[trigger] spec_substitute_snapshot(snap, old_id, new_id).claim_prose[i], old_id, new_id),
{
    lemma_sub_prose_rows_renamed(snap.claim_prose, old_id, new_id, snap.claim_prose.len() as int);
}

/// Every claim row of a substituted snapshot is some row of the original
/// with `old_id` renamed to `new_id` in its key and in every id it cites
/// (`depends` and `because` alike), all else as it was; so once the ids
/// differ, no row of it names or cites `old_id`.
pub proof fn lemma_substitute_renames_rows(snap: SnapshotV, old_id: Seq<char>, new_id: Seq<char>)
    ensures
        forall|i: int| 0 <= i < spec_substitute_snapshot(snap, old_id, new_id).claims.len() ==> exists|j: int| 0 <= j < snap.claims.len() && row_renamed(snap.claims[j], #[trigger] spec_substitute_snapshot(snap, old_id, new_id).claims[i], old_id, new_id),
        old_id != new_id ==> forall|i: int, t: int| 0 <= i < spec_substitute_snapshot(snap, old_id, new_id).claims.len() && 0 <= t < spec_substitute_snapshot(snap, old_id, new_id).claims[i].1.because.len() ==> #[trigger] spec_substitute_snapshot(snap, old_id, new_id).claims[i].1.because[t] != old_id,
        old_id != new_id ==> forall|i: int, t: int| 0 <= i < spec_substitute_snapshot(snap, old_id, new_id).claims.len() && 0 <= t < spec_substitute_snapshot(snap, old_id, new_id).claims[i].1.depends.len() ==> #[trigger] spec_substitute_snapshot(snap, old_id, new_id).claims[i].1.depends[t] != old_id,
{
    let r = spec_substitute_snapshot(snap, old_id, new_id);
    lemma_sub_claim_rows_renamed(snap.claims, old_id, new_id, snap.claims.len() as int);
    if old_id != new_id {
        assert forall|i: int, t: int| 0 <= i < r.claims.len() && 0 <= t < r.claims[i].1.because.len() implies #[trigger] r.claims[i].1.because[t] != old_id by {
            let j = choose|j: int| 0 <= j < snap.claims.len() && row_renamed(snap.claims[j], #[trigger] r.claims[i], old_id, new_id);
            assert(r.claims[i].1.because[t] == (if snap.claims[j].1.because[t] == old_id { new_id } else { snap.claims[j].1.because[t] }));
        }
        assert forall|i: int, t: int| 0 <= i < r.claims.len() && 0 <= t < r.claims[i].1.depends.len() implies #[trigger] r.claims[i].1.depends[t] != old_id by {
            let j = choose|j: int| 0 <= j < snap.claims.len() && row_renamed(snap.claims[j], #[trigger] r.claims[i], old_id, new_id);
            assert(r.claims[i].1.depends[t] == (if snap.claims[j].1.depends[t] == old_id { new_id } else { snap.claims[j].1.depends[t] }));
        }
    }
}

/// Substituting one id by another leaves the document rows as they are
/// and keeps one diagnostic for each diagnostic, in place.
pub proof fn lemma_substitute_keeps_documents(snap: SnapshotV, old_id: Seq<char>, new_id: Seq<char>)
    ensures
        spec_substitute_snapshot(snap, old_id, new_id).documents == snap.documents,
        spec_substitute_snapshot(snap, old_id, new_id).diagnostics.len() == snap.diagnostics.len(),
{
}

/// Renaming an id to itself changes no snapshot whose rows have
/// ascending keys (as every snapshot built here has): the check of a
/// rename compares the renamed corpus against the original itself.
pub proof fn lemma_substitute_same_id(snap: SnapshotV, id: Seq<char>)
    requires
        keys_ascending(snap.claims),
        keys_ascending(snap.claim_prose),
    ensures
        spec_substitute_snapshot(snap, id, id) == snap,
{
    lemma_sub_claim_rows_same(snap.claims, id, snap.claims.len() as int);
    lemma_sub_prose_rows_same(snap.claim_prose, id, snap.claim_prose.len() as int);
    assert(snap.claims.take(snap.claims.len() as int) =~= snap.claims);
    assert(snap.claim_prose.take(snap.claim_prose.len() as int) =~= snap.claim_prose);
    assert forall|k: int| 0 <= k < snap.diagnostics.len() implies sub_diag(#[trigger] snap.diagnostics[k], id, id) == snap.diagnostics[k] by {
        let d = snap.diagnostics[k];
        lemma_replace_same(d.message, id, 0);
        assert(d.message.skip(0) =~= d.message);
    }
    assert(snap.diagnostics.map_values(|d: DiagnosticV| sub_diag(d, id, id)) =~= snap.diagnostics);
}

} // verus!
