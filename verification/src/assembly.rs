//! From the two walks' findings to a document's id definitions: every
//! definition of either form in one position-ordered stream, the
//! heading adjacency that reclassifies an `<a id>` anchor, and each
//! definition's prose scope.

use vstd::prelude::*;
use vstd::string::StringSliceAdditionalSpecFns;
use crate::extract::{
    bracket_kebab_id, is_external, is_kebab, malformed_bracket_id, spec_malformed_bracket_id, DocumentLink, MalformedId,
    UnregisteredDefinition, spec_is_external, spec_line_of, spec_bracket_kebab_id, Definitions,
    DefinitionsV, LineIndex, OrphanClaim, RawHeading, RawHeadingV, RawSpan, RawText, Structure, StructureV,
};
use crate::model::{
    assign_heading_slugs, lemma_slugs_distinct, spec_assign_heading_slugs, Claim, ClaimV, CiteRef, CiteRefV, Heading,
    HeadingV, refs_view, spec_parse_ref,
};
use crate::text::{byte_slice, chars_of, contains_seq, owned, starts_with, str_get, trim, trim_bounds};
use crate::yaml::{parse_raw_claim_block, spec_raw_claim_block};

verus! {

// --- a stable sort by position ---------------------------------------------

/// `s` with `x` inserted after every element whose key is at most `x`'s:
/// one step of a stable insertion sort.
pub open spec fn insert_by_key<T>(s: Seq<(usize, T)>, x: (usize, T)) -> Seq<(usize, T)>
    decreases s.len(),
{
    if s.len() == 0 || s.last().0 <= x.0 {
        s.push(x)
    } else {
        insert_by_key(s.drop_last(), x).push(s.last())
    }
}

/// `s` stably sorted by key: equal keys keep their relative order.
pub open spec fn sort_by_key<T>(s: Seq<(usize, T)>) -> Seq<(usize, T)>
    decreases s.len(),
{
    if s.len() == 0 {
        s
    } else {
        insert_by_key(sort_by_key(s.drop_last()), s.last())
    }
}

proof fn lemma_insert_at<T>(s: Seq<(usize, T)>, x: (usize, T), j: int)
    requires
        0 <= j <= s.len(),
        forall|k: int| j <= k < s.len() ==> s[k].0 > x.0,
        j == 0 || s[j - 1].0 <= x.0,
    ensures
        insert_by_key(s, x) == s.take(j).push(x) + s.skip(j),
    decreases s.len(),
{
    if s.len() == 0 {
        assert(s.take(j).push(x) + s.skip(j) =~= s.push(x));
    } else if s.last().0 <= x.0 {
        assert(j == s.len());
        assert(s.take(j).push(x) + s.skip(j) =~= s.push(x));
    } else {
        let d = s.drop_last();
        lemma_insert_at(d, x, j);
        assert(d.take(j).push(x) + d.skip(j) + seq![s.last()] =~= s.take(j).push(x) + s.skip(j));
        assert(insert_by_key(s, x) == insert_by_key(d, x).push(s.last()));
        assert((d.take(j).push(x) + d.skip(j)).push(s.last()) =~= d.take(j).push(x) + d.skip(j) + seq![s.last()]);
    }
}

/// A key-preserving map commutes with insertion.
proof fn lemma_insert_map<T, U>(s: Seq<(usize, T)>, x: (usize, T), f: spec_fn((usize, T)) -> (usize, U))
    requires
        forall|p: (usize, T)| #[trigger] f(p).0 == p.0,
    ensures
        insert_by_key(s, x).map_values(f) == insert_by_key(s.map_values(f), f(x)),
    decreases s.len(),
{
    let m = s.map_values(f);
    if s.len() == 0 {
        assert(insert_by_key(s, x).map_values(f) =~= seq![f(x)]);
        assert(insert_by_key(m, f(x)) =~= seq![f(x)]);
    } else {
        assert(m.last() == f(s.last()));
        assert(m.drop_last() =~= s.drop_last().map_values(f));
        if s.last().0 <= x.0 {
            assert(insert_by_key(s, x).map_values(f) =~= m.push(f(x)));
        } else {
            lemma_insert_map(s.drop_last(), x, f);
            assert(insert_by_key(s, x).map_values(f) =~= insert_by_key(s.drop_last(), x).map_values(f).push(f(s.last())));
        }
    }
}

/// A key-preserving map commutes with the sort.
pub proof fn lemma_sort_map<T, U>(s: Seq<(usize, T)>, f: spec_fn((usize, T)) -> (usize, U))
    requires
        forall|p: (usize, T)| #[trigger] f(p).0 == p.0,
    ensures
        sort_by_key(s).map_values(f) == sort_by_key(s.map_values(f)),
    decreases s.len(),
{
    if s.len() == 0 {
        assert(sort_by_key(s).map_values(f) =~= sort_by_key(s.map_values(f)));
    } else {
        lemma_sort_map(s.drop_last(), f);
        lemma_insert_map(sort_by_key(s.drop_last()), s.last(), f);
        assert(s.map_values(f).drop_last() =~= s.drop_last().map_values(f));
    }
}

/// Whatever holds of every element holds of every element after
/// insertion.
proof fn lemma_insert_all<T>(s: Seq<(usize, T)>, x: (usize, T), p: spec_fn((usize, T)) -> bool)
    requires
        forall|k: int| 0 <= k < s.len() ==> p(#[trigger] s[k]),
        p(x),
    ensures
        forall|k: int| 0 <= k < insert_by_key(s, x).len() ==> p(#[trigger] insert_by_key(s, x)[k]),
        insert_by_key(s, x).len() == s.len() + 1,
    decreases s.len(),
{
    if s.len() > 0 && s.last().0 > x.0 {
        let d = s.drop_last();
        lemma_insert_all(d, x, p);
        let r = insert_by_key(s, x);
        assert forall|k: int| 0 <= k < r.len() implies p(#[trigger] r[k]) by {
            if k < r.len() - 1 {
                assert(r[k] == insert_by_key(d, x)[k]);
            } else {
                assert(r[k] == s.last());
                assert(p(s[s.len() - 1]));
            }
        }
    } else {
        let r = insert_by_key(s, x);
        assert forall|k: int| 0 <= k < r.len() implies p(#[trigger] r[k]) by {
            if k < s.len() {
                assert(r[k] == s[k]);
            }
        }
    }
}

/// The sort keeps every element's properties, and the length.
pub proof fn lemma_sort_all<T>(s: Seq<(usize, T)>, p: spec_fn((usize, T)) -> bool)
    requires
        forall|k: int| 0 <= k < s.len() ==> p(#[trigger] s[k]),
    ensures
        forall|k: int| 0 <= k < sort_by_key(s).len() ==> p(#[trigger] sort_by_key(s)[k]),
        sort_by_key(s).len() == s.len(),
    decreases s.len(),
{
    if s.len() > 0 {
        let d = s.drop_last();
        assert forall|k: int| 0 <= k < d.len() implies p(#[trigger] d[k]) by {
            assert(d[k] == s[k]);
        }
        lemma_sort_all(d, p);
        assert(p(s[s.len() - 1]));
        lemma_insert_all(sort_by_key(d), s.last(), p);
    }
}

/// Insert `x` into `v` by key, after every element whose key is at most
/// `x`'s.
pub fn insert_sorted<T>(v: &mut Vec<(usize, T)>, x: (usize, T))
    ensures
        final(v)@ == insert_by_key(old(v)@, x),
{
    let mut j: usize = v.len();
    while j > 0 && v[j - 1].0 > x.0
        invariant
            j <= v@.len(),
            v@ == old(v)@,
            forall|k: int| j <= k < v@.len() ==> v@[k].0 > x.0,
        decreases j,
    {
        j = j - 1;
    }
    proof { lemma_insert_at(v@, x, j as int); }
    v.insert(j, x);
    proof {
        assert(v@ =~= old(v)@.take(j as int).push(x) + old(v)@.skip(j as int));
    }
}

/// `v`, stably sorted by key.
pub fn sorted_by_key<T>(v: Vec<(usize, T)>) -> (r: Vec<(usize, T)>)
    ensures
        r@ == sort_by_key(v@),
{
    let ghost orig = v@;
    let n = v.len();
    let mut out: Vec<(usize, T)> = Vec::new();
    let mut rest = v;
    proof { assert(out@ =~= sort_by_key(orig.take(0))); }
    let mut i: usize = 0;
    while rest.len() > 0
        invariant
            i + rest@.len() == orig.len(),
            n == orig.len(),
            rest@ == orig.skip(i as int),
            out@ == sort_by_key(orig.take(i as int)),
        decreases rest@.len(),
    {
        let x = rest.remove(0);
        proof {
            assert(rest@ =~= orig.skip(i + 1));
            assert(x == orig[i as int]);
            assert(orig.take(i + 1).drop_last() =~= orig.take(i as int));
        }
        insert_sorted(&mut out, x);
        i = i + 1;
    }
    proof { assert(orig.take(i as int) =~= orig); }
    out
}


// --- the id definitions of a document ---------------------------------------

/// Which definition an anchor came from, by its index in its own list: a
/// heading (also an `<a id>` reclassified as its adjacent heading's), a
/// bold-form definition, or a free-standing `<a id>` anchor.
#[derive(Debug, Clone, Copy, PartialEq, Eq, Structural)]
pub enum AnchorKind {
    Heading(usize),
    Bold(usize),
    Html(usize),
}

/// A recognised definition: its id and where it came from. Anchors are
/// held as `(position, Anchor)` pairs, position first.
#[derive(Debug, Clone)]
pub struct Anchor {
    pub id: String,
    pub kind: AnchorKind,
}

pub open spec fn anchors_view(v: Seq<(usize, Anchor)>) -> Seq<(usize, (Seq<char>, AnchorKind))> {
    v.map_values(|p: (usize, Anchor)| (p.0, (p.1.id@, p.1.kind)))
}

pub open spec fn headings_view(v: Seq<RawHeading>) -> Seq<RawHeadingV> {
    v.map_values(|h: RawHeading| h@)
}

pub open spec fn spans_view(v: Seq<RawSpan>) -> Seq<(usize, usize, Seq<char>)> {
    v.map_values(|d: RawSpan| d@)
}

/// Whether bytes `a..b` of `src` are a slice of nothing but whitespace.
pub open spec fn blank_between(src: Seq<char>, a: int, b: int) -> bool {
    match byte_slice(src, a, b) {
        Some(t) => trim(t).len() == 0,
        None => false,
    }
}

/// Whether a definition spanning `a..b` sits next to heading `h`, with
/// only whitespace between them, on either side.
pub open spec fn adjacent_to(src: Seq<char>, a: int, b: int, h: RawHeadingV) -> bool {
    (b <= h.start && blank_between(src, b, h.start as int)) || (h.end <= a && blank_between(src, h.end as int, a))
}

/// The first heading from index `k` on that a definition spanning `a..b`
/// is adjacent to.
pub open spec fn first_adjacent(src: Seq<char>, a: int, b: int, hs: Seq<RawHeadingV>, k: int) -> Option<int>
    decreases hs.len() - k,
{
    if k < 0 || k >= hs.len() {
        None
    } else if adjacent_to(src, a, b, hs[k]) {
        Some(k)
    } else {
        first_adjacent(src, a, b, hs, k + 1)
    }
}

fn blank(source: &str, a: usize, b: usize) -> (r: bool)
    ensures
        r == blank_between(source@, a as int, b as int),
{
    match str_get(source, a, b) {
        Some(t) => {
            let v = chars_of(t.as_str());
            let (x, y) = trim_bounds(&v);
            x == y
        },
        None => false,
    }
}

/// The heading an `<a id>` anchor spanning `a..b` belongs to: the first
/// one it sits directly above or below, with only whitespace between.
/// Such an anchor names the section, not a sentence.
pub fn heading_adjacent_to(source: &str, a: usize, b: usize, hs: &Vec<RawHeading>) -> (r: Option<usize>)
    ensures
        match r {
            Some(k) => first_adjacent(source@, a as int, b as int, headings_view(hs@), 0) == Some(k as int),
            None => first_adjacent(source@, a as int, b as int, headings_view(hs@), 0) is None,
        },
{
    let ghost hv = headings_view(hs@);
    let mut k: usize = 0;
    while k < hs.len()
        invariant
            k <= hs@.len(),
            hv == headings_view(hs@),
            first_adjacent(source@, a as int, b as int, hv, 0) == first_adjacent(source@, a as int, b as int, hv, k as int),
        decreases hs@.len() - k,
    {
        let h = &hs[k];
        assert(hv[k as int] == h@);
        let adj = (b <= h.start && blank(source, b, h.start)) || (h.end <= a && blank(source, h.end, a));
        if adj {
            return Some(k);
        }
        k = k + 1;
    }
    None
}

/// The heading-form definitions among the first `n` headings.
pub open spec fn heading_anchors(hs: Seq<RawHeadingV>, n: int) -> Seq<(usize, (Seq<char>, AnchorKind))>
    decreases n,
{
    if n <= 0 {
        Seq::empty()
    } else {
        heading_anchors(hs, n - 1) + match spec_bracket_kebab_id(hs[n - 1].text) {
            Some(id) => seq![(hs[n - 1].start, (id, AnchorKind::Heading((n - 1) as usize)))],
            None => Seq::empty(),
        }
    }
}

/// The first `n` bold-form definitions as anchors.
pub open spec fn bold_anchors(ds: Seq<(usize, usize, Seq<char>)>, n: int) -> Seq<(usize, (Seq<char>, AnchorKind))>
    decreases n,
{
    if n <= 0 {
        Seq::empty()
    } else {
        bold_anchors(ds, n - 1).push((ds[n - 1].0, (ds[n - 1].2, AnchorKind::Bold((n - 1) as usize))))
    }
}

/// An `<a id>` definition as an anchor: reclassified as its adjacent
/// heading's, positioned at the earlier of the two, when it has one.
pub open spec fn html_anchor(src: Seq<char>, hs: Seq<RawHeadingV>, d: (usize, usize, Seq<char>), i: int) -> (usize, (Seq<char>, AnchorKind)) {
    match first_adjacent(src, d.0 as int, d.1 as int, hs, 0) {
        Some(hi) => (
            if d.0 <= hs[hi].start { d.0 } else { hs[hi].start },
            (d.2, AnchorKind::Heading(hi as usize)),
        ),
        None => (d.0, (d.2, AnchorKind::Html(i as usize))),
    }
}

pub open spec fn html_anchors(src: Seq<char>, hs: Seq<RawHeadingV>, ds: Seq<(usize, usize, Seq<char>)>, n: int) -> Seq<(usize, (Seq<char>, AnchorKind))>
    decreases n,
{
    if n <= 0 {
        Seq::empty()
    } else {
        html_anchors(src, hs, ds, n - 1).push(html_anchor(src, hs, ds[n - 1], n - 1))
    }
}

/// Every definition of the document, all forms together, ordered by
/// position (definitions at the same position keep heading, bold, HTML
/// order).
pub open spec fn spec_anchors(src: Seq<char>, hs: Seq<RawHeadingV>, bolds: Seq<(usize, usize, Seq<char>)>, htmls: Seq<(usize, usize, Seq<char>)>) -> Seq<(usize, (Seq<char>, AnchorKind))> {
    sort_by_key(
        heading_anchors(hs, hs.len() as int) + bold_anchors(bolds, bolds.len() as int) + html_anchors(src, hs, htmls, htmls.len() as int),
    )
}

/// Every anchor's index points into its own list.
pub open spec fn anchor_in_range(nh: nat, nb: nat, nm: nat, a: (usize, (Seq<char>, AnchorKind))) -> bool {
    match a.1.1 {
        AnchorKind::Heading(i) => i < nh,
        AnchorKind::Bold(i) => i < nb,
        AnchorKind::Html(i) => i < nm,
    }
}

proof fn lemma_heading_anchors_kebab(hs: Seq<RawHeadingV>, n: int)
    ensures
        forall|k: int| 0 <= k < heading_anchors(hs, n).len() ==> is_kebab(#[trigger] heading_anchors(hs, n)[k].1.0),
    decreases n,
{
    if n > 0 {
        lemma_heading_anchors_kebab(hs, n - 1);
        let prev = heading_anchors(hs, n - 1);
        let cur = heading_anchors(hs, n);
        assert forall|k: int| 0 <= k < cur.len() implies is_kebab(#[trigger] cur[k].1.0) by {
            if k < prev.len() {
                assert(cur[k] == prev[k]);
            }
        }
    }
}

proof fn lemma_bold_anchors_ids(ds: Seq<(usize, usize, Seq<char>)>, n: int)
    requires
        0 <= n <= ds.len(),
    ensures
        bold_anchors(ds, n).len() == n,
        forall|k: int| 0 <= k < n ==> (#[trigger] bold_anchors(ds, n)[k]).1.0 == ds[k].2,
    decreases n,
{
    if n > 0 {
        lemma_bold_anchors_ids(ds, n - 1);
        assert forall|k: int| 0 <= k < n implies (#[trigger] bold_anchors(ds, n)[k]).1.0 == ds[k].2 by {
            if k < n - 1 {
                assert(bold_anchors(ds, n)[k] == bold_anchors(ds, n - 1)[k]);
            }
        }
    }
}

proof fn lemma_html_anchors_ids(src: Seq<char>, hs: Seq<RawHeadingV>, ds: Seq<(usize, usize, Seq<char>)>, n: int)
    requires
        0 <= n <= ds.len(),
    ensures
        html_anchors(src, hs, ds, n).len() == n,
        forall|k: int| 0 <= k < n ==> (#[trigger] html_anchors(src, hs, ds, n)[k]).1.0 == ds[k].2,
    decreases n,
{
    if n > 0 {
        lemma_html_anchors_ids(src, hs, ds, n - 1);
        assert forall|k: int| 0 <= k < n implies (#[trigger] html_anchors(src, hs, ds, n)[k]).1.0 == ds[k].2 by {
            if k < n - 1 {
                assert(html_anchors(src, hs, ds, n)[k] == html_anchors(src, hs, ds, n - 1)[k]);
            }
        }
    }
}

/// With every bold and HTML definition in the id grammar, so is every
/// anchor.
pub proof fn lemma_anchor_ids_kebab(src: Seq<char>, hs: Seq<RawHeadingV>, bolds: Seq<(usize, usize, Seq<char>)>, htmls: Seq<(usize, usize, Seq<char>)>)
    requires
        forall|k: int| 0 <= k < bolds.len() ==> is_kebab(#[trigger] bolds[k].2),
        forall|k: int| 0 <= k < htmls.len() ==> is_kebab(#[trigger] htmls[k].2),
    ensures
        forall|k: int| 0 <= k < spec_anchors(src, hs, bolds, htmls).len() ==> is_kebab(#[trigger] spec_anchors(src, hs, bolds, htmls)[k].1.0),
{
    let h = heading_anchors(hs, hs.len() as int);
    let b = bold_anchors(bolds, bolds.len() as int);
    let m = html_anchors(src, hs, htmls, htmls.len() as int);
    lemma_heading_anchors_kebab(hs, hs.len() as int);
    lemma_bold_anchors_ids(bolds, bolds.len() as int);
    lemma_html_anchors_ids(src, hs, htmls, htmls.len() as int);
    let all = h + b + m;
    assert forall|k: int| 0 <= k < all.len() implies is_kebab(#[trigger] all[k].1.0) by {
        if k < h.len() {
            assert(all[k] == h[k]);
        } else if k < h.len() + b.len() {
            assert(all[k] == b[k - h.len()]);
        } else {
            assert(all[k] == m[k - h.len() - b.len()]);
        }
    }
    let p = |a: (usize, (Seq<char>, AnchorKind))| is_kebab(a.1.0);
    assert forall|k: int| 0 <= k < all.len() implies p(#[trigger] all[k]) by {}
    lemma_sort_all(all, p);
}

/// Collect and order a document's definitions.
pub fn build_anchors(source: &str, hs: &Vec<RawHeading>, bolds: &Vec<RawSpan>, htmls: &Vec<RawSpan>) -> (r: Vec<(usize, Anchor)>)
    ensures
        anchors_view(r@) == spec_anchors(source@, headings_view(hs@), spans_view(bolds@), spans_view(htmls@)),
        forall|k: int| 0 <= k < r@.len() ==> anchor_in_range(hs@.len(), bolds@.len(), htmls@.len(), #[trigger] anchors_view(r@)[k]),
{
    let ghost hv = headings_view(hs@);
    let ghost bv = spans_view(bolds@);
    let ghost mv = spans_view(htmls@);
    let ghost p = |a: (usize, (Seq<char>, AnchorKind))| anchor_in_range(hs@.len(), bolds@.len(), htmls@.len(), a);
    let mut all: Vec<(usize, Anchor)> = Vec::new();
    let mut i: usize = 0;
    while i < hs.len()
        invariant
            i <= hs@.len(),
            hv == headings_view(hs@),
            anchors_view(all@) == heading_anchors(hv, i as int),
            forall|k: int| 0 <= k < all@.len() ==> anchor_in_range(hs@.len(), bolds@.len(), htmls@.len(), #[trigger] anchors_view(all@)[k]),
        decreases hs@.len() - i,
    {
        let h = &hs[i];
        assert(hv[i as int] == h@);
        let ghost prev = anchors_view(all@);
        match bracket_kebab_id(h.text.as_str()) {
            Some(id) => {
                all.push((h.start, Anchor { id, kind: AnchorKind::Heading(i) }));
                proof { assert(anchors_view(all@) =~= prev + seq![(h.start, (id@, AnchorKind::Heading(i)))]); }
            },
            None => {
                proof { assert(anchors_view(all@) =~= heading_anchors(hv, i as int) + Seq::empty()); }
            },
        }
        proof {
            assert forall|k: int| 0 <= k < all@.len() implies anchor_in_range(hs@.len(), bolds@.len(), htmls@.len(), #[trigger] anchors_view(all@)[k]) by {
                if k < prev.len() {
                    assert(anchors_view(all@)[k] == prev[k]);
                } else {
                    assert(anchors_view(all@)[k] == (all@[k].0, (all@[k].1.id@, all@[k].1.kind)));
                }
            }
        }
        i = i + 1;
    }
    let ghost after_headings = anchors_view(all@);
    let mut j: usize = 0;
    while j < bolds.len()
        invariant
            j <= bolds@.len(),
            bv == spans_view(bolds@),
            anchors_view(all@) == after_headings + bold_anchors(bv, j as int),
            forall|k: int| 0 <= k < all@.len() ==> anchor_in_range(hs@.len(), bolds@.len(), htmls@.len(), #[trigger] anchors_view(all@)[k]),
        decreases bolds@.len() - j,
    {
        let d = &bolds[j];
        assert(bv[j as int] == d@);
        let ghost prev = anchors_view(all@);
        all.push((d.start, Anchor { id: d.text.clone(), kind: AnchorKind::Bold(j) }));
        proof { assert(anchors_view(all@) =~= prev.push((d.start, (d.text@, AnchorKind::Bold(j))))); }
        proof {
            assert forall|k: int| 0 <= k < all@.len() implies anchor_in_range(hs@.len(), bolds@.len(), htmls@.len(), #[trigger] anchors_view(all@)[k]) by {
                if k < prev.len() {
                    assert(anchors_view(all@)[k] == prev[k]);
                } else {
                    assert(anchors_view(all@)[k] == (all@[k].0, (all@[k].1.id@, all@[k].1.kind)));
                }
            }
        }
        j = j + 1;
    }
    let ghost after_bolds = anchors_view(all@);
    let mut m: usize = 0;
    while m < htmls.len()
        invariant
            m <= htmls@.len(),
            hv == headings_view(hs@),
            mv == spans_view(htmls@),
            anchors_view(all@) == after_bolds + html_anchors(source@, hv, mv, m as int),
            forall|k: int| 0 <= k < all@.len() ==> anchor_in_range(hs@.len(), bolds@.len(), htmls@.len(), #[trigger] anchors_view(all@)[k]),
        decreases htmls@.len() - m,
    {
        let d = &htmls[m];
        assert(mv[m as int] == d@);
        let adj = heading_adjacent_to(source, d.start, d.end, hs);
        let ghost prev = anchors_view(all@);
        match adj {
            Some(hi) => {
                proof { lemma_first_adjacent_range(source@, d.start as int, d.end as int, hv, 0); }
                let hstart = hs[hi].start;
                let start = if d.start <= hstart { d.start } else { hstart };
                all.push((start, Anchor { id: d.text.clone(), kind: AnchorKind::Heading(hi) }));
            },
            None => {
                all.push((d.start, Anchor { id: d.text.clone(), kind: AnchorKind::Html(m) }));
            },
        }
        proof { assert(anchors_view(all@) =~= prev.push(html_anchor(source@, hv, mv[m as int], m as int))); }
        proof {
            assert forall|k: int| 0 <= k < all@.len() implies anchor_in_range(hs@.len(), bolds@.len(), htmls@.len(), #[trigger] anchors_view(all@)[k]) by {
                if k < prev.len() {
                    assert(anchors_view(all@)[k] == prev[k]);
                } else {
                    assert(anchors_view(all@)[k] == (all@[k].0, (all@[k].1.id@, all@[k].1.kind)));
                }
            }
        }
        m = m + 1;
    }
    proof {
        assert(anchors_view(all@) =~= heading_anchors(hv, hv.len() as int) + bold_anchors(bv, bv.len() as int)
            + html_anchors(source@, hv, mv, mv.len() as int));
    }
    let ghost unsorted = all@;
    let r = sorted_by_key(all);
    proof {
        let f = |q: (usize, Anchor)| (q.0, (q.1.id@, q.1.kind));
        lemma_sort_map(unsorted, f);
        assert(anchors_view(r@) =~= sort_by_key(unsorted).map_values(f));
        assert(anchors_view(unsorted) =~= unsorted.map_values(f));
        lemma_sort_all(anchors_view(unsorted), p);
    }
    r
}

proof fn lemma_first_adjacent_range(src: Seq<char>, a: int, b: int, hs: Seq<RawHeadingV>, k: int)
    requires
        0 <= k,
    ensures
        first_adjacent(src, a, b, hs, k) matches Some(i) ==> k <= i < hs.len(),
    decreases hs.len() - k,
{
    if k < hs.len() && !adjacent_to(src, a, b, hs[k]) {
        lemma_first_adjacent_range(src, a, b, hs, k + 1);
    }
}


// --- prose scopes --------------------------------------------------------------

/// The start of the first heading from index `k` on at or above `level`.
pub open spec fn next_section(hs: Seq<RawHeadingV>, level: u8, k: int) -> Option<usize>
    decreases hs.len() - k,
{
    if k < 0 || k >= hs.len() {
        None
    } else if hs[k].level <= level {
        Some(hs[k].start)
    } else {
        next_section(hs, level, k + 1)
    }
}

/// The start of the first heading from index `k` on that begins after
/// byte `after`.
pub open spec fn heading_after(hs: Seq<RawHeadingV>, after: int, k: int) -> Option<usize>
    decreases hs.len() - k,
{
    if k < 0 || k >= hs.len() {
        None
    } else if hs[k].start > after {
        Some(hs[k].start)
    } else {
        heading_after(hs, after, k + 1)
    }
}

/// The start of the first definition from index `k` on that begins after
/// byte `after`.
pub open spec fn span_after(ds: Seq<(usize, usize, Seq<char>)>, after: int, k: int) -> Option<usize>
    decreases ds.len() - k,
{
    if k < 0 || k >= ds.len() {
        None
    } else if ds[k].0 > after {
        Some(ds[k].0)
    } else {
        span_after(ds, after, k + 1)
    }
}

pub open spec fn min_opt(a: Option<usize>, b: Option<usize>) -> Option<usize> {
    match (a, b) {
        (Some(x), Some(y)) => Some(if x <= y { x } else { y }),
        (Some(x), None) => Some(x),
        (None, y) => y,
    }
}

/// Where an inline (bold- or HTML-form) definition's prose scope ends:
/// at the next heading of any level or the next definition of either
/// form, whichever comes first, else at the end of the document.
pub open spec fn spec_inline_scope_end(after: int, hs: Seq<RawHeadingV>, bs: Seq<(usize, usize, Seq<char>)>, ms: Seq<(usize, usize, Seq<char>)>, len: usize) -> usize {
    match min_opt(min_opt(heading_after(hs, after, 0), span_after(bs, after, 0)), span_after(ms, after, 0)) {
        Some(x) => x,
        None => len,
    }
}

/// An anchor's definition position (for its line), and its prose scope:
/// a heading's runs from its end to the next heading at or above its
/// level; an inline definition's from its end to
/// [`spec_inline_scope_end`].
pub open spec fn anchor_scope(kind: AnchorKind, hs: Seq<RawHeadingV>, bs: Seq<(usize, usize, Seq<char>)>, ms: Seq<(usize, usize, Seq<char>)>, len: usize) -> (usize, usize, usize) {
    match kind {
        AnchorKind::Heading(i) => {
            let h = hs[i as int];
            (h.start, h.end, match next_section(hs, h.level, i + 1) {
                Some(x) => x,
                None => len,
            })
        },
        AnchorKind::Bold(i) => {
            let b = bs[i as int];
            (b.0, b.1, spec_inline_scope_end(b.1 as int, hs, bs, ms, len))
        },
        AnchorKind::Html(i) => {
            let m = ms[i as int];
            (m.0, m.1, spec_inline_scope_end(m.1 as int, hs, bs, ms, len))
        },
    }
}

fn next_section_from(hs: &Vec<RawHeading>, level: u8, k: usize) -> (r: Option<usize>)
    requires
        k <= hs@.len(),
    ensures
        r == next_section(headings_view(hs@), level, k as int),
{
    let ghost hv = headings_view(hs@);
    let mut i = k;
    while i < hs.len()
        invariant
            k <= i <= hs@.len(),
            hv == headings_view(hs@),
            next_section(hv, level, k as int) == next_section(hv, level, i as int),
        decreases hs@.len() - i,
    {
        assert(hv[i as int] == hs@[i as int]@);
        if hs[i].level <= level {
            return Some(hs[i].start);
        }
        i = i + 1;
    }
    None
}

fn heading_after_exec(hs: &Vec<RawHeading>, after: usize) -> (r: Option<usize>)
    ensures
        r == heading_after(headings_view(hs@), after as int, 0),
{
    let ghost hv = headings_view(hs@);
    let mut i: usize = 0;
    while i < hs.len()
        invariant
            i <= hs@.len(),
            hv == headings_view(hs@),
            heading_after(hv, after as int, 0) == heading_after(hv, after as int, i as int),
        decreases hs@.len() - i,
    {
        assert(hv[i as int] == hs@[i as int]@);
        if hs[i].start > after {
            return Some(hs[i].start);
        }
        i = i + 1;
    }
    None
}

fn span_after_exec(ds: &Vec<RawSpan>, after: usize) -> (r: Option<usize>)
    ensures
        r == span_after(spans_view(ds@), after as int, 0),
{
    let ghost dv = spans_view(ds@);
    let mut i: usize = 0;
    while i < ds.len()
        invariant
            i <= ds@.len(),
            dv == spans_view(ds@),
            span_after(dv, after as int, 0) == span_after(dv, after as int, i as int),
        decreases ds@.len() - i,
    {
        assert(dv[i as int] == ds@[i as int]@);
        if ds[i].start > after {
            return Some(ds[i].start);
        }
        i = i + 1;
    }
    None
}

fn min_opt_exec(a: Option<usize>, b: Option<usize>) -> (r: Option<usize>)
    ensures
        r == min_opt(a, b),
{
    match (a, b) {
        (Some(x), Some(y)) => Some(if x <= y { x } else { y }),
        (Some(x), None) => Some(x),
        (None, y) => y,
    }
}

/// See [`spec_inline_scope_end`].
pub fn inline_scope_end(after: usize, hs: &Vec<RawHeading>, bs: &Vec<RawSpan>, ms: &Vec<RawSpan>, len: usize) -> (r: usize)
    ensures
        r == spec_inline_scope_end(after as int, headings_view(hs@), spans_view(bs@), spans_view(ms@), len),
{
    let m = min_opt_exec(min_opt_exec(heading_after_exec(hs, after), span_after_exec(bs, after)), span_after_exec(ms, after));
    match m {
        Some(x) => x,
        None => len,
    }
}

/// See [`anchor_scope`].
pub fn scope_of(kind: AnchorKind, hs: &Vec<RawHeading>, bs: &Vec<RawSpan>, ms: &Vec<RawSpan>, len: usize) -> (r: (usize, usize, usize))
    requires
        anchor_in_range(hs@.len(), bs@.len(), ms@.len(), (0, (Seq::empty(), kind))),
    ensures
        r == anchor_scope(kind, headings_view(hs@), spans_view(bs@), spans_view(ms@), len),
{
    match kind {
        AnchorKind::Heading(i) => {
            let n = hs.len();
            let h = &hs[i];
            assert(headings_view(hs@)[i as int] == h@);
            let end = match next_section_from(hs, h.level, i + 1) {
                Some(x) => x,
                None => len,
            };
            (h.start, h.end, end)
        },
        AnchorKind::Bold(i) => {
            let b = &bs[i];
            assert(spans_view(bs@)[i as int] == b@);
            (b.start, b.end, inline_scope_end(b.end, hs, bs, ms, len))
        },
        AnchorKind::Html(i) => {
            let m = &ms[i];
            assert(spans_view(ms@)[i as int] == m@);
            (m.start, m.end, inline_scope_end(m.end, hs, bs, ms, len))
        },
    }
}


// --- claims --------------------------------------------------------------------

/// How many leading anchors (from index `i` on) sit before byte `pos`.
pub open spec fn anchors_before(anchors: Seq<(usize, (Seq<char>, AnchorKind))>, pos: int, i: int) -> int
    decreases anchors.len() - i,
{
    if 0 <= i < anchors.len() && anchors[i].0 < pos {
        anchors_before(anchors, pos, i + 1)
    } else {
        i
    }
}

/// A claim block's owner: the nearest definition of either form before
/// it.
pub open spec fn owner_of(anchors: Seq<(usize, (Seq<char>, AnchorKind))>, pos: int) -> Option<(usize, (Seq<char>, AnchorKind))> {
    let k = anchors_before(anchors, pos, 0);
    if k > 0 {
        Some(anchors[k - 1])
    } else {
        None
    }
}

proof fn lemma_anchors_before(anchors: Seq<(usize, (Seq<char>, AnchorKind))>, pos: int, i: int)
    requires
        0 <= i <= anchors.len(),
    ensures
        i <= anchors_before(anchors, pos, i) <= anchors.len(),
    decreases anchors.len() - i,
{
    if i < anchors.len() && anchors[i].0 < pos {
        lemma_anchors_before(anchors, pos, i + 1);
    }
}

/// The texts among the first `n` items that sit inside `lo..hi` but not
/// inside the claim block `blo..bhi` (and, when asked, are not external
/// links).
pub open spec fn select_texts(items: Seq<(usize, Seq<char>)>, lo: int, hi: int, blo: int, bhi: int, drop_external: bool, n: int) -> Seq<Seq<char>>
    decreases n,
{
    if n <= 0 {
        Seq::empty()
    } else {
        let it = items[n - 1];
        select_texts(items, lo, hi, blo, bhi, drop_external, n - 1) + if lo <= it.0 < hi && !(blo <= it.0 < bhi) && !(drop_external && spec_is_external(it.1)) {
            seq![it.1]
        } else {
            Seq::empty()
        }
    }
}

pub open spec fn texts_view(v: Seq<RawText>) -> Seq<(usize, Seq<char>)> {
    v.map_values(|t: RawText| t@)
}

fn select_texts_exec(items: &Vec<RawText>, lo: usize, hi: usize, blo: usize, bhi: usize, drop_external: bool) -> (r: Vec<String>)
    ensures
        r.deep_view() == select_texts(texts_view(items@), lo as int, hi as int, blo as int, bhi as int, drop_external, items@.len() as int),
{
    let ghost iv = texts_view(items@);
    let mut out: Vec<String> = Vec::new();
    let mut i: usize = 0;
    while i < items.len()
        invariant
            i <= items@.len(),
            iv == texts_view(items@),
            out.deep_view() == select_texts(iv, lo as int, hi as int, blo as int, bhi as int, drop_external, i as int),
        decreases items@.len() - i,
    {
        let it = &items[i];
        assert(iv[i as int] == it@);
        let keep = lo <= it.start && it.start < hi && !(blo <= it.start && it.start < bhi) && !(drop_external && is_external(it.text.as_str()));
        let ghost prev = out.deep_view();
        if keep {
            out.push(it.text.clone());
            proof { assert(out.deep_view() =~= prev + seq![it.text@]); }
        } else {
            proof { assert(out.deep_view() =~= prev + Seq::<Seq<char>>::empty()); }
        }
        i = i + 1;
    }
    out
}

pub open spec fn parse_refs_spec(v: Seq<Seq<char>>) -> Seq<CiteRefV> {
    v.map_values(|d: Seq<char>| spec_parse_ref(d))
}

fn parse_refs(v: &Vec<String>) -> (r: Vec<CiteRef>)
    ensures
        refs_view(r@) == parse_refs_spec(v.deep_view()),
{
    let mut out: Vec<CiteRef> = Vec::new();
    let mut i: usize = 0;
    while i < v.len()
        invariant
            i <= v@.len(),
            refs_view(out@) == parse_refs_spec(v.deep_view().take(i as int)),
        decreases v@.len() - i,
    {
        let ghost prev = refs_view(out@);
        let c = CiteRef::parse(v[i].as_str());
        out.push(c);
        proof {
            assert(refs_view(out@) =~= prev.push(c@));
            assert(v.deep_view().take(i + 1) =~= v.deep_view().take(i as int).push(v.deep_view()[i as int]));
            assert(parse_refs_spec(v.deep_view().take(i + 1)) =~= parse_refs_spec(v.deep_view().take(i as int)).push(c@));
        }
        i = i + 1;
    }
    proof { assert(v.deep_view().take(v@.len() as int) =~= v.deep_view()); }
    out
}

pub open spec fn line_at(bytes: Seq<u8>, offset: int) -> usize {
    spec_line_of(bytes, offset) as usize
}

/// The claim a block makes under its owning anchor.
pub open spec fn spec_claim(file: Seq<char>, bytes: Seq<u8>, st: StructureV, defs: DefinitionsV, a: (usize, (Seq<char>, AnchorKind)), b: (usize, usize, bool, Seq<char>)) -> ClaimV {
    let sc = anchor_scope(a.1.1, st.headings, defs.bold_defs, defs.html_defs, bytes.len() as usize);
    let raw = spec_raw_claim_block(b.3);
    ClaimV {
        id: a.1.0,
        file,
        heading_line: line_at(bytes, sc.0 as int),
        block_line: line_at(bytes, b.0 as int),
        raw,
        depends: parse_refs_spec(raw.depends),
        because: parse_refs_spec(raw.because),
        prose_links: select_texts(st.links, sc.1 as int, sc.2 as int, b.0 as int, b.1 as int, true, st.links.len() as int),
        prose_code: select_texts(st.codes, sc.1 as int, sc.2 as int, b.0 as int, b.1 as int, false, st.codes.len() as int),
    }
}

/// Claims, orphan claim blocks, and the positions of the anchors that
/// were claimed, over the first `n` fenced blocks (only `claim` blocks
/// count).
pub open spec fn claims_walk(file: Seq<char>, bytes: Seq<u8>, st: StructureV, defs: DefinitionsV, anchors: Seq<(usize, (Seq<char>, AnchorKind))>, n: int) -> (Seq<ClaimV>, Seq<(Seq<char>, usize)>, Seq<usize>)
    decreases n,
{
    if n <= 0 {
        (Seq::empty(), Seq::empty(), Seq::empty())
    } else {
        let prev = claims_walk(file, bytes, st, defs, anchors, n - 1);
        let b = st.blocks[n - 1];
        if !b.2 {
            prev
        } else {
            match owner_of(anchors, b.0 as int) {
                None => (prev.0, prev.1.push((file, line_at(bytes, b.0 as int))), prev.2),
                Some(a) => (prev.0.push(spec_claim(file, bytes, st, defs, a, b)), prev.1, prev.2.push(a.0)),
            }
        }
    }
}

/// A link target naming a URL scheme: `://` anywhere, or a `mailto:` or
/// `tel:` prefix.
pub open spec fn names_a_scheme(d: Seq<char>) -> bool {
    contains_seq(d, "://"@) || starts_with(d, "mailto:"@) || starts_with(d, "tel:"@)
}

proof fn lemma_scheme_is_external(d: Seq<char>)
    requires
        names_a_scheme(d),
    ensures
        spec_is_external(d),
{
}

pub proof fn lemma_document_links_local(file: Seq<char>, bytes: Seq<u8>, items: Seq<(usize, Seq<char>)>, n: int)
    ensures
        forall|k: int| 0 <= k < document_links(file, bytes, items, n).len() ==> !names_a_scheme(#[trigger] document_links(file, bytes, items, n)[k].2),
    decreases n,
{
    if n > 0 {
        lemma_document_links_local(file, bytes, items, n - 1);
        let prev = document_links(file, bytes, items, n - 1);
        let cur = document_links(file, bytes, items, n);
        assert forall|k: int| 0 <= k < cur.len() implies !names_a_scheme(#[trigger] cur[k].2) by {
            if k < prev.len() {
                assert(cur[k] == prev[k]);
            } else {
                if names_a_scheme(cur[k].2) {
                    lemma_scheme_is_external(cur[k].2);
                }
            }
        }
    }
}

proof fn lemma_select_texts_local(items: Seq<(usize, Seq<char>)>, lo: int, hi: int, blo: int, bhi: int, n: int)
    ensures
        forall|k: int| 0 <= k < select_texts(items, lo, hi, blo, bhi, true, n).len() ==> !names_a_scheme(#[trigger] select_texts(items, lo, hi, blo, bhi, true, n)[k]),
    decreases n,
{
    if n > 0 {
        lemma_select_texts_local(items, lo, hi, blo, bhi, n - 1);
        let prev = select_texts(items, lo, hi, blo, bhi, true, n - 1);
        let cur = select_texts(items, lo, hi, blo, bhi, true, n);
        assert forall|k: int| 0 <= k < cur.len() implies !names_a_scheme(#[trigger] cur[k]) by {
            if k < prev.len() {
                assert(cur[k] == prev[k]);
            } else {
                if names_a_scheme(cur[k]) {
                    lemma_scheme_is_external(cur[k]);
                }
            }
        }
    }
}

pub proof fn lemma_claims_walk_local(file: Seq<char>, bytes: Seq<u8>, st: StructureV, defs: DefinitionsV, anchors: Seq<(usize, (Seq<char>, AnchorKind))>, n: int)
    ensures
        forall|k: int, j: int| 0 <= k < claims_walk(file, bytes, st, defs, anchors, n).0.len() && 0 <= j < claims_walk(file, bytes, st, defs, anchors, n).0[k].prose_links.len()
            ==> !names_a_scheme(#[trigger] claims_walk(file, bytes, st, defs, anchors, n).0[k].prose_links[j]),
    decreases n,
{
    if n > 0 {
        lemma_claims_walk_local(file, bytes, st, defs, anchors, n - 1);
        let prev = claims_walk(file, bytes, st, defs, anchors, n - 1);
        let cur = claims_walk(file, bytes, st, defs, anchors, n);
        let b = st.blocks[n - 1];
        assert forall|k: int, j: int| 0 <= k < cur.0.len() && 0 <= j < cur.0[k].prose_links.len() implies !names_a_scheme(#[trigger] cur.0[k].prose_links[j]) by {
            if k < prev.0.len() {
                assert(cur.0[k] == prev.0[k]);
            } else {
                let a = owner_of(anchors, b.0 as int).unwrap();
                let sc = anchor_scope(a.1.1, st.headings, defs.bold_defs, defs.html_defs, bytes.len() as usize);
                lemma_select_texts_local(st.links, sc.1 as int, sc.2 as int, b.0 as int, b.1 as int, st.links.len() as int);
                assert(cur.0[k] == spec_claim(file, bytes, st, defs, a, b));
            }
        }
    }
}

/// The lines of the claim fences among the first `n` fenced blocks, in
/// order.
pub open spec fn fence_lines(bytes: Seq<u8>, blocks: Seq<(usize, usize, bool, Seq<char>)>, n: int) -> Seq<usize>
    decreases n,
{
    if n <= 0 {
        Seq::empty()
    } else {
        fence_lines(bytes, blocks, n - 1) + if blocks[n - 1].2 {
            seq![line_at(bytes, blocks[n - 1].0 as int)]
        } else {
            Seq::empty()
        }
    }
}

/// The first `n` of `xs` whose tag is `v`, in order.
pub open spec fn select_tagged(xs: Seq<usize>, tags: Seq<bool>, v: bool, n: int) -> Seq<usize>
    decreases n,
{
    if n <= 0 {
        Seq::empty()
    } else {
        select_tagged(xs, tags, v, n - 1) + if tags[n - 1] == v { seq![xs[n - 1]] } else { Seq::empty() }
    }
}

/// For each claim fence among the first `n` blocks, whether a definition
/// owns it.
pub open spec fn fence_owned(anchors: Seq<(usize, (Seq<char>, AnchorKind))>, blocks: Seq<(usize, usize, bool, Seq<char>)>, n: int) -> Seq<bool>
    decreases n,
{
    if n <= 0 {
        Seq::empty()
    } else {
        fence_owned(anchors, blocks, n - 1) + if blocks[n - 1].2 {
            seq![owner_of(anchors, blocks[n - 1].0 as int) is Some]
        } else {
            Seq::empty()
        }
    }
}

proof fn lemma_select_tagged_prefix(xs: Seq<usize>, tags: Seq<bool>, xs2: Seq<usize>, tags2: Seq<bool>, v: bool, n: int)
    requires
        0 <= n <= xs.len() <= xs2.len(),
        n <= tags.len() <= tags2.len(),
        forall|k: int| 0 <= k < n ==> xs2[k] == xs[k] && tags2[k] == tags[k],
    ensures
        select_tagged(xs2, tags2, v, n) == select_tagged(xs, tags, v, n),
    decreases n,
{
    if n > 0 {
        lemma_select_tagged_prefix(xs, tags, xs2, tags2, v, n - 1);
    }
}

/// The tagged and the untagged of the first `n` together are all `n`.
pub proof fn lemma_select_tagged_split(xs: Seq<usize>, tags: Seq<bool>, n: int)
    requires
        0 <= n,
    ensures
        select_tagged(xs, tags, true, n).len() + select_tagged(xs, tags, false, n).len() == n,
    decreases n,
{
    if n > 0 {
        lemma_select_tagged_split(xs, tags, n - 1);
    }
}

/// Over the first `n` blocks: every claim fence becomes exactly one claim
/// or one orphan, in fence order; the owned fences are the claims, the
/// others the orphans.
pub proof fn lemma_claims_walk_fences(file: Seq<char>, bytes: Seq<u8>, st: StructureV, defs: DefinitionsV, anchors: Seq<(usize, (Seq<char>, AnchorKind))>, n: int)
    requires
        0 <= n <= st.blocks.len(),
    ensures
        ({
            let cw = claims_walk(file, bytes, st, defs, anchors, n);
            let fl = fence_lines(bytes, st.blocks, n);
            let t = fence_owned(anchors, st.blocks, n);
            &&& t.len() == fl.len()
            &&& cw.0.map_values(|c: ClaimV| c.block_line) == select_tagged(fl, t, true, fl.len() as int)
            &&& cw.1.map_values(|o: (Seq<char>, usize)| o.1) == select_tagged(fl, t, false, fl.len() as int)
            &&& forall|k: int| 0 <= k < cw.0.len() ==> (#[trigger] cw.0[k]).file == file
            &&& forall|k: int| 0 <= k < cw.1.len() ==> (#[trigger] cw.1[k]).0 == file
        }),
    decreases n,
{
    if n > 0 {
        lemma_claims_walk_fences(file, bytes, st, defs, anchors, n - 1);
        let prev = claims_walk(file, bytes, st, defs, anchors, n - 1);
        let cw = claims_walk(file, bytes, st, defs, anchors, n);
        let fl0 = fence_lines(bytes, st.blocks, n - 1);
        let t0 = fence_owned(anchors, st.blocks, n - 1);
        let fl = fence_lines(bytes, st.blocks, n);
        let t = fence_owned(anchors, st.blocks, n);
        let b = st.blocks[n - 1];
        if b.2 {
            let owned = owner_of(anchors, b.0 as int) is Some;
            assert(fl == fl0.push(line_at(bytes, b.0 as int)));
            assert(t == t0.push(owned));
            lemma_select_tagged_prefix(fl0, t0, fl, t, true, fl0.len() as int);
            lemma_select_tagged_prefix(fl0, t0, fl, t, false, fl0.len() as int);
            match owner_of(anchors, b.0 as int) {
                None => {
                    assert(cw.0 == prev.0);
                    assert(cw.1.map_values(|o: (Seq<char>, usize)| o.1) =~= prev.1.map_values(|o: (Seq<char>, usize)| o.1).push(
                        line_at(bytes, b.0 as int),
                    ));
                    assert forall|k: int| 0 <= k < cw.1.len() implies (#[trigger] cw.1[k]).0 == file by {
                        if k < prev.1.len() {
                            assert(cw.1[k] == prev.1[k]);
                        }
                    }
                },
                Some(a) => {
                    assert(cw.1 == prev.1);
                    assert(cw.0.map_values(|c: ClaimV| c.block_line) =~= prev.0.map_values(|c: ClaimV| c.block_line).push(
                        line_at(bytes, b.0 as int),
                    ));
                    assert forall|k: int| 0 <= k < cw.0.len() implies (#[trigger] cw.0[k]).file == file by {
                        if k < prev.0.len() {
                            assert(cw.0[k] == prev.0[k]);
                        }
                    }
                },
            }
        } else {
            assert(fl =~= fl0);
            assert(t =~= t0);
        }
    }
}

/// With every anchor in the id grammar, so is every claim and every
/// unregistered definition.
pub proof fn lemma_claims_walk_kebab(file: Seq<char>, bytes: Seq<u8>, st: StructureV, defs: DefinitionsV, anchors: Seq<(usize, (Seq<char>, AnchorKind))>, n: int)
    requires
        forall|k: int| 0 <= k < anchors.len() ==> is_kebab(#[trigger] anchors[k].1.0),
    ensures
        forall|k: int| 0 <= k < claims_walk(file, bytes, st, defs, anchors, n).0.len() ==> is_kebab(#[trigger] claims_walk(file, bytes, st, defs, anchors, n).0[k].id),
    decreases n,
{
    if n > 0 {
        lemma_claims_walk_kebab(file, bytes, st, defs, anchors, n - 1);
        let prev = claims_walk(file, bytes, st, defs, anchors, n - 1);
        let cur = claims_walk(file, bytes, st, defs, anchors, n);
        let b = st.blocks[n - 1];
        lemma_anchors_before(anchors, b.0 as int, 0);
        assert forall|k: int| 0 <= k < cur.0.len() implies is_kebab(#[trigger] cur.0[k].id) by {
            if k < prev.0.len() {
                assert(cur.0[k] == prev.0[k]);
            }
        }
    }
}

/// With every anchor in the id grammar, so is every definition reported
/// as unregistered.
pub proof fn lemma_unregistered_kebab(file: Seq<char>, bytes: Seq<u8>, anchors: Seq<(usize, (Seq<char>, AnchorKind))>, claimed: Seq<usize>, n: int)
    requires
        0 <= n <= anchors.len(),
        forall|k: int| 0 <= k < anchors.len() ==> is_kebab(#[trigger] anchors[k].1.0),
    ensures
        forall|k: int| 0 <= k < unregistered(file, bytes, anchors, claimed, n).len() ==> is_kebab(#[trigger] unregistered(file, bytes, anchors, claimed, n)[k].2),
    decreases n,
{
    if n > 0 {
        lemma_unregistered_kebab(file, bytes, anchors, claimed, n - 1);
        let prev = unregistered(file, bytes, anchors, claimed, n - 1);
        let cur = unregistered(file, bytes, anchors, claimed, n);
        assert forall|k: int| 0 <= k < cur.len() implies is_kebab(#[trigger] cur[k].2) by {
            if k < prev.len() {
                assert(cur[k] == prev[k]);
            }
        }
    }
}

fn owner_index(anchors: &Vec<(usize, Anchor)>, pos: usize) -> (r: usize)
    ensures
        r == anchors_before(anchors_view(anchors@), pos as int, 0),
        r <= anchors@.len(),
{
    let ghost av = anchors_view(anchors@);
    let mut i: usize = 0;
    while i < anchors.len() && anchors[i].0 < pos
        invariant
            i <= anchors@.len(),
            av == anchors_view(anchors@),
            anchors_before(av, pos as int, 0) == anchors_before(av, pos as int, i as int),
        decreases anchors@.len() - i,
    {
        i = i + 1;
    }
    i
}

/// Assemble every claim of a document from its claim blocks, each owned
/// by the nearest preceding definition; a claim block with none is an
/// orphan. Also returns the positions of the anchors that were claimed.
pub fn collect_claims(file: &str, source: &str, lines: &LineIndex, st: &Structure, defs: &Definitions, anchors: &Vec<(usize, Anchor)>) -> (r: (Vec<Claim>, Vec<OrphanClaim>, Vec<usize>))
    requires
        lines.wf(),
        lines.source_bytes() == source.spec_bytes(),
        forall|k: int| 0 <= k < anchors@.len() ==> anchor_in_range(st.headings@.len(), defs.bold_defs@.len(), defs.html_defs@.len(), #[trigger] anchors_view(anchors@)[k]),
    ensures
        r.0@.map_values(|c: Claim| c@) == claims_walk(file@, source.spec_bytes(), st@, defs@, anchors_view(anchors@), st.blocks@.len() as int).0,
        r.1@.map_values(|o: OrphanClaim| o@) == claims_walk(file@, source.spec_bytes(), st@, defs@, anchors_view(anchors@), st.blocks@.len() as int).1,
        r.2@ == claims_walk(file@, source.spec_bytes(), st@, defs@, anchors_view(anchors@), st.blocks@.len() as int).2,
{
    let ghost bytes = source.spec_bytes();
    let ghost av = anchors_view(anchors@);
    let len = source.as_bytes().len();
    let mut claims: Vec<Claim> = Vec::new();
    let mut orphans: Vec<OrphanClaim> = Vec::new();
    let mut claimed: Vec<usize> = Vec::new();
    let mut n: usize = 0;
    while n < st.blocks.len()
        invariant
            n <= st.blocks@.len(),
            lines.wf(),
            lines.source_bytes() == bytes,
            bytes == source.spec_bytes(),
            len == bytes.len(),
            av == anchors_view(anchors@),
            forall|k: int| 0 <= k < anchors@.len() ==> anchor_in_range(st.headings@.len(), defs.bold_defs@.len(), defs.html_defs@.len(), #[trigger] anchors_view(anchors@)[k]),
            claims@.map_values(|c: Claim| c@) == claims_walk(file@, bytes, st@, defs@, av, n as int).0,
            orphans@.map_values(|o: OrphanClaim| o@) == claims_walk(file@, bytes, st@, defs@, av, n as int).1,
            claimed@ == claims_walk(file@, bytes, st@, defs@, av, n as int).2,
        decreases st.blocks@.len() - n,
    {
        let b = &st.blocks[n];
        assert(st@.blocks[n as int] == b@);
        if b.is_claim {
            let k = owner_index(anchors, b.start);
            let block_line = lines.line_of(b.start);
            if k == 0 {
                let ghost prev = orphans@.map_values(|o: OrphanClaim| o@);
                let o = OrphanClaim { file: owned(file), line: block_line };
                orphans.push(o);
                proof { assert(orphans@.map_values(|o: OrphanClaim| o@) =~= prev.push(o@)); }
            } else {
                let (pos, anchor) = (anchors[k - 1].0, &anchors[k - 1].1);
                assert(av[k - 1] == (pos, (anchor.id@, anchor.kind)));
                assert(anchor_in_range(st.headings@.len(), defs.bold_defs@.len(), defs.html_defs@.len(), av[k - 1]));
                let sc = scope_of(anchor.kind, &st.headings, &defs.bold_defs, &defs.html_defs, len);
                let heading_line = lines.line_of(sc.0);
                let raw = parse_raw_claim_block(b.yaml.as_str());
                let depends = parse_refs(&raw.depends);
                let because = parse_refs(&raw.because);
                let prose_links = select_texts_exec(&st.links, sc.1, sc.2, b.start, b.end, true);
                let prose_code = select_texts_exec(&st.codes, sc.1, sc.2, b.start, b.end, false);
                let c = Claim {
                    id: anchor.id.clone(),
                    file: owned(file),
                    heading_line,
                    block_line,
                    raw,
                    depends,
                    because,
                    prose_links,
                    prose_code,
                };
                proof {
                    assert(c@ == spec_claim(file@, bytes, st@, defs@, av[k - 1], b@));
                }
                let ghost prev = claims@.map_values(|c: Claim| c@);
                claims.push(c);
                claimed.push(pos);
                proof { assert(claims@.map_values(|c: Claim| c@) =~= prev.push(c@)); }
            }
        }
        n = n + 1;
    }
    (claims, orphans, claimed)
}


// --- diagnostics -----------------------------------------------------------------

/// The definitions among the first `n` anchors that no claim adopted.
pub open spec fn unregistered(file: Seq<char>, bytes: Seq<u8>, anchors: Seq<(usize, (Seq<char>, AnchorKind))>, claimed: Seq<usize>, n: int) -> Seq<(Seq<char>, usize, Seq<char>)>
    decreases n,
{
    if n <= 0 {
        Seq::empty()
    } else {
        let a = anchors[n - 1];
        unregistered(file, bytes, anchors, claimed, n - 1) + if !claimed.contains(a.0) {
            seq![(file, line_at(bytes, a.0 as int), a.1.0)]
        } else {
            Seq::empty()
        }
    }
}

fn contains_usize(v: &Vec<usize>, x: usize) -> (r: bool)
    ensures
        r == v@.contains(x),
{
    let mut i: usize = 0;
    while i < v.len()
        invariant
            i <= v@.len(),
            forall|k: int| 0 <= k < i ==> v@[k] != x,
        decreases v@.len() - i,
    {
        if v[i] == x {
            return true;
        }
        i = i + 1;
    }
    false
}

pub fn collect_unregistered(file: &str, lines: &LineIndex, anchors: &Vec<(usize, Anchor)>, claimed: &Vec<usize>) -> (r: Vec<UnregisteredDefinition>)
    requires
        lines.wf(),
    ensures
        r@.map_values(|u: UnregisteredDefinition| u@) == unregistered(file@, lines.source_bytes(), anchors_view(anchors@), claimed@, anchors@.len() as int),
{
    let ghost av = anchors_view(anchors@);
    let mut out: Vec<UnregisteredDefinition> = Vec::new();
    let mut i: usize = 0;
    while i < anchors.len()
        invariant
            i <= anchors@.len(),
            lines.wf(),
            av == anchors_view(anchors@),
            out@.map_values(|u: UnregisteredDefinition| u@) == unregistered(file@, lines.source_bytes(), av, claimed@, i as int),
        decreases anchors@.len() - i,
    {
        let a = &anchors[i];
        assert(av[i as int] == (a.0, (a.1.id@, a.1.kind)));
        let ghost prev = out@.map_values(|u: UnregisteredDefinition| u@);
        if !contains_usize(claimed, a.0) {
            let u = UnregisteredDefinition { file: owned(file), line: lines.line_of(a.0), id: a.1.id.clone() };
            out.push(u);
            proof { assert(out@.map_values(|u: UnregisteredDefinition| u@) =~= prev + seq![u@]); }
        } else {
            proof { assert(out@.map_values(|u: UnregisteredDefinition| u@) =~= prev + Seq::<(Seq<char>, usize, Seq<char>)>::empty()); }
        }
        i = i + 1;
    }
    out
}

/// The malformed heading-form ids among the first `n` headings.
pub open spec fn heading_malformed(hs: Seq<RawHeadingV>, n: int) -> Seq<(usize, Seq<char>)>
    decreases n,
{
    if n <= 0 {
        Seq::empty()
    } else {
        heading_malformed(hs, n - 1) + match spec_malformed_bracket_id(hs[n - 1].text) {
            Some(id) => seq![(hs[n - 1].start, id)],
            None => Seq::empty(),
        }
    }
}

/// Every malformed id of the document, all forms together, in position
/// order.
pub open spec fn spec_malformed(file: Seq<char>, bytes: Seq<u8>, hs: Seq<RawHeadingV>, defs: DefinitionsV) -> Seq<(Seq<char>, usize, Seq<char>)> {
    sort_by_key(heading_malformed(hs, hs.len() as int) + defs.malformed_bold + defs.malformed_html).map_values(
        |p: (usize, Seq<char>)| (file, line_at(bytes, p.0 as int), p.1),
    )
}

fn push_texts(out: &mut Vec<(usize, String)>, v: &Vec<RawText>)
    ensures
        final(out)@.map_values(|p: (usize, String)| (p.0, p.1@)) == old(out)@.map_values(|p: (usize, String)| (p.0, p.1@)) + texts_view(v@),
{
    let ghost before = old(out)@.map_values(|p: (usize, String)| (p.0, p.1@));
    let mut i: usize = 0;
    while i < v.len()
        invariant
            i <= v@.len(),
            out@.map_values(|p: (usize, String)| (p.0, p.1@)) == before + texts_view(v@).take(i as int),
        decreases v@.len() - i,
    {
        let ghost prev = out@.map_values(|p: (usize, String)| (p.0, p.1@));
        out.push((v[i].start, v[i].text.clone()));
        proof {
            assert(out@.map_values(|p: (usize, String)| (p.0, p.1@)) =~= prev.push(v@[i as int]@));
            assert(texts_view(v@).take(i + 1) =~= texts_view(v@).take(i as int).push(v@[i as int]@));
        }
        i = i + 1;
    }
    proof { assert(texts_view(v@).take(v@.len() as int) =~= texts_view(v@)); }
}

pub fn collect_malformed(file: &str, lines: &LineIndex, hs: &Vec<RawHeading>, defs: &Definitions) -> (r: Vec<MalformedId>)
    requires
        lines.wf(),
    ensures
        r@.map_values(|m: MalformedId| m@) == spec_malformed(file@, lines.source_bytes(), headings_view(hs@), defs@),
{
    let ghost hv = headings_view(hs@);
    let mut all: Vec<(usize, String)> = Vec::new();
    let mut i: usize = 0;
    while i < hs.len()
        invariant
            i <= hs@.len(),
            hv == headings_view(hs@),
            all@.map_values(|p: (usize, String)| (p.0, p.1@)) == heading_malformed(hv, i as int),
        decreases hs@.len() - i,
    {
        let h = &hs[i];
        assert(hv[i as int] == h@);
        let ghost prev = all@.map_values(|p: (usize, String)| (p.0, p.1@));
        match malformed_bracket_id(h.text.as_str()) {
            Some(id) => {
                all.push((h.start, id));
                proof { assert(all@.map_values(|p: (usize, String)| (p.0, p.1@)) =~= prev + seq![(h.start, id@)]); }
            },
            None => {
                proof { assert(all@.map_values(|p: (usize, String)| (p.0, p.1@)) =~= prev + Seq::<(usize, Seq<char>)>::empty()); }
            },
        }
        i = i + 1;
    }
    push_texts(&mut all, &defs.malformed_bold);
    push_texts(&mut all, &defs.malformed_html);
    let ghost unsorted = all@;
    let sorted = sorted_by_key(all);
    proof {
        let f = |q: (usize, String)| (q.0, q.1@);
        lemma_sort_map(unsorted, f);
        assert(sorted@.map_values(f) =~= sort_by_key(heading_malformed(hv, hv.len() as int) + defs@.malformed_bold + defs@.malformed_html));
    }
    let mut out: Vec<MalformedId> = Vec::new();
    let mut j: usize = 0;
    while j < sorted.len()
        invariant
            j <= sorted@.len(),
            lines.wf(),
            out@.map_values(|m: MalformedId| m@) == sorted@.take(j as int).map_values(
                |p: (usize, String)| (file@, line_at(lines.source_bytes(), p.0 as int), p.1@),
            ),
        decreases sorted@.len() - j,
    {
        let m = MalformedId { file: owned(file), line: lines.line_of(sorted[j].0), id: sorted[j].1.clone() };
        let ghost prev = out@.map_values(|m: MalformedId| m@);
        out.push(m);
        proof {
            assert(out@.map_values(|m: MalformedId| m@) =~= prev.push(m@));
            assert(sorted@.take(j + 1) =~= sorted@.take(j as int).push(sorted@[j as int]));
            assert(sorted@.take(j + 1).map_values(|p: (usize, String)| (file@, line_at(lines.source_bytes(), p.0 as int), p.1@))
                =~= sorted@.take(j as int).map_values(|p: (usize, String)| (file@, line_at(lines.source_bytes(), p.0 as int), p.1@)).push(m@));
        }
        j = j + 1;
    }
    proof {
        assert(sorted@.take(sorted@.len() as int) =~= sorted@);
        let f = |q: (usize, String)| (q.0, q.1@);
        let g = |p: (usize, Seq<char>)| (file@, line_at(lines.source_bytes(), p.0 as int), p.1);
        assert(out@.map_values(|m: MalformedId| m@) =~= sorted@.map_values(f).map_values(g));
    }
    out
}

/// The first `n` items that are not external links, located by line.
pub open spec fn document_links(file: Seq<char>, bytes: Seq<u8>, items: Seq<(usize, Seq<char>)>, n: int) -> Seq<(Seq<char>, usize, Seq<char>)>
    decreases n,
{
    if n <= 0 {
        Seq::empty()
    } else {
        let it = items[n - 1];
        document_links(file, bytes, items, n - 1) + if !spec_is_external(it.1) {
            seq![(file, line_at(bytes, it.0 as int), it.1)]
        } else {
            Seq::empty()
        }
    }
}

pub fn collect_links(file: &str, lines: &LineIndex, items: &Vec<RawText>) -> (r: Vec<DocumentLink>)
    requires
        lines.wf(),
    ensures
        r@.map_values(|l: DocumentLink| l@) == document_links(file@, lines.source_bytes(), texts_view(items@), items@.len() as int),
{
    let ghost iv = texts_view(items@);
    let mut out: Vec<DocumentLink> = Vec::new();
    let mut i: usize = 0;
    while i < items.len()
        invariant
            i <= items@.len(),
            lines.wf(),
            iv == texts_view(items@),
            out@.map_values(|l: DocumentLink| l@) == document_links(file@, lines.source_bytes(), iv, i as int),
        decreases items@.len() - i,
    {
        let it = &items[i];
        assert(iv[i as int] == it@);
        let ghost prev = out@.map_values(|l: DocumentLink| l@);
        if !is_external(it.text.as_str()) {
            let l = DocumentLink { file: owned(file), line: lines.line_of(it.start), dest: it.text.clone() };
            out.push(l);
            proof { assert(out@.map_values(|l: DocumentLink| l@) =~= prev + seq![l@]); }
        } else {
            proof { assert(out@.map_values(|l: DocumentLink| l@) =~= prev + Seq::<(Seq<char>, usize, Seq<char>)>::empty()); }
        }
        i = i + 1;
    }
    out
}

/// The document's headings, located by line, with their deduplicated
/// slugs.
pub open spec fn heading_texts(hs: Seq<RawHeadingV>) -> Seq<Seq<char>> {
    hs.map_values(|h: RawHeadingV| h.text)
}

pub open spec fn headings_from(bytes: Seq<u8>, hs: Seq<RawHeadingV>, slugs: Seq<Seq<char>>, n: int) -> Seq<HeadingV>
    decreases n,
{
    if n <= 0 {
        Seq::empty()
    } else {
        headings_from(bytes, hs, slugs, n - 1).push(
            HeadingV { level: hs[n - 1].level, text: hs[n - 1].text, line: line_at(bytes, hs[n - 1].start as int), slug: slugs[n - 1] },
        )
    }
}

pub open spec fn spec_headings(bytes: Seq<u8>, hs: Seq<RawHeadingV>) -> Seq<HeadingV> {
    headings_from(bytes, hs, spec_assign_heading_slugs(heading_texts(hs)), hs.len() as int)
}

pub fn collect_headings(lines: &LineIndex, hs: &Vec<RawHeading>) -> (r: Vec<Heading>)
    requires
        lines.wf(),
    ensures
        r@.map_values(|h: Heading| h@) == spec_headings(lines.source_bytes(), headings_view(hs@)),
{
    let ghost hv = headings_view(hs@);
    let mut texts: Vec<&str> = Vec::new();
    let mut i: usize = 0;
    while i < hs.len()
        invariant
            i <= hs@.len(),
            texts@.map_values(|t: &str| t@) == heading_texts(headings_view(hs@).take(i as int)),
        decreases hs@.len() - i,
    {
        let ghost prev = texts@.map_values(|t: &str| t@);
        texts.push(hs[i].text.as_str());
        proof {
            assert(texts@.map_values(|t: &str| t@) =~= prev.push(hs@[i as int].text@));
            assert(heading_texts(headings_view(hs@).take(i + 1)) =~= heading_texts(headings_view(hs@).take(i as int)).push(hs@[i as int].text@));
        }
        i = i + 1;
    }
    proof { assert(headings_view(hs@).take(hs@.len() as int) =~= headings_view(hs@)); }
    let slugs = assign_heading_slugs(texts.as_slice());
    let ghost sv = spec_assign_heading_slugs(heading_texts(hv));
    proof {
        lemma_slugs_distinct(heading_texts(hv), hv.len() as int);
    }
    let mut out: Vec<Heading> = Vec::new();
    let mut j: usize = 0;
    while j < hs.len()
        invariant
            j <= hs@.len(),
            lines.wf(),
            hv == headings_view(hs@),
            slugs.deep_view() == sv,
            sv.len() == hs@.len(),
            out@.map_values(|h: Heading| h@) == headings_from(lines.source_bytes(), hv, sv, j as int),
        decreases hs@.len() - j,
    {
        let h = &hs[j];
        let heading = Heading { level: h.level, text: h.text.clone(), line: lines.line_of(h.start), slug: slugs[j].clone() };
        let ghost prev = out@.map_values(|h: Heading| h@);
        out.push(heading);
        proof {
            assert(hv[j as int] == h@);
            assert(slugs.deep_view()[j as int] == slugs@[j as int]@);
            assert(heading@.slug == sv[j as int]);
            assert(hv[j as int].text == h.text@);
        }
        j = j + 1;
    }
    out
}

} // verus!
