//! The index: a pure projection of the corpus, never committed — claims
//! keyed by id and documents keyed by document path, each in ascending
//! key order, a later entry for a key replacing an earlier one.

use vstd::prelude::*;
use crate::model::{spec_ref_string, Claim, ClaimV, CiteRef, Corpus, DocumentV, Index, IndexClaim, IndexDocument};
use crate::blast::claims_view;
use crate::text::{chars_of, owned, str_eq};

verus! {

/// Lexicographic order on texts, by code point (the order of their
/// UTF-8 bytes): a proper prefix comes first.
pub open spec fn text_lt(a: Seq<char>, b: Seq<char>) -> bool
    decreases a.len(),
{
    if a.len() == 0 {
        b.len() > 0
    } else if b.len() == 0 {
        false
    } else if a[0] != b[0] {
        (a[0] as u32) < (b[0] as u32)
    } else {
        text_lt(a.drop_first(), b.drop_first())
    }
}

pub fn less_than(a: &Vec<char>, b: &Vec<char>) -> (r: bool)
    ensures
        r == text_lt(a@, b@),
{
    let mut i: usize = 0;
    proof { assert(a@.skip(0) =~= a@); assert(b@.skip(0) =~= b@); }
    while i < a.len() && i < b.len() && a[i] == b[i]
        invariant
            i <= a@.len(),
            i <= b@.len(),
            text_lt(a@, b@) == text_lt(a@.skip(i as int), b@.skip(i as int)),
        decreases a@.len() - i,
    {
        proof {
            assert(a@.skip(i as int).drop_first() =~= a@.skip(i + 1));
            assert(b@.skip(i as int).drop_first() =~= b@.skip(i + 1));
        }
        i = i + 1;
    }
    if i == a.len() {
        i < b.len()
    } else if i == b.len() {
        false
    } else {
        (a[i] as u32) < (b[i] as u32)
    }
}

/// `m` with `k` mapped to `v`: the entry for `k` replaced if there is
/// one, else `(k, v)` inserted after every key below `k`.
pub open spec fn insert_key<V>(m: Seq<(Seq<char>, V)>, k: Seq<char>, v: V) -> Seq<(Seq<char>, V)>
    decreases m.len(),
{
    if m.len() == 0 {
        seq![(k, v)]
    } else if m.last().0 == k {
        m.drop_last().push((k, v))
    } else if text_lt(m.last().0, k) {
        m.push((k, v))
    } else {
        insert_key(m.drop_last(), k, v).push(m.last())
    }
}

/// `text_lt` never holds of a text and itself.
pub proof fn lemma_text_lt_irreflexive(a: Seq<char>)
    ensures
        !text_lt(a, a),
    decreases a.len(),
{
    if a.len() > 0 {
        lemma_text_lt_irreflexive(a.drop_first());
    }
}

/// `text_lt` is transitive.
pub proof fn lemma_text_lt_transitive(a: Seq<char>, b: Seq<char>, c: Seq<char>)
    requires
        text_lt(a, b),
        text_lt(b, c),
    ensures
        text_lt(a, c),
    decreases a.len(),
{
    if a.len() > 0 && b.len() > 0 && c.len() > 0 && a[0] == b[0] && b[0] == c[0] {
        lemma_text_lt_transitive(a.drop_first(), b.drop_first(), c.drop_first());
    }
}

/// Of two different texts, one comes first, and not both.
pub proof fn lemma_text_lt_total(a: Seq<char>, b: Seq<char>)
    ensures
        a != b ==> (text_lt(a, b) || text_lt(b, a)),
        !(text_lt(a, b) && text_lt(b, a)),
    decreases a.len(),
{
    if a.len() > 0 && b.len() > 0 {
        if a[0] == b[0] {
            lemma_text_lt_total(a.drop_first(), b.drop_first());
            if a.drop_first() == b.drop_first() {
                assert(a =~= seq![a[0]] + a.drop_first());
                assert(b =~= seq![b[0]] + b.drop_first());
            }
        } else {
            vstd::utf8::char_u32_cast(a[0], a[0] as u32);
            vstd::utf8::char_u32_cast(b[0], b[0] as u32);
        }
    } else if a.len() == 0 && b.len() == 0 {
        assert(a =~= b);
    }
}

/// Keys strictly ascending, so each key occurs once.
pub open spec fn keys_ascending<V>(m: Seq<(Seq<char>, V)>) -> bool {
    forall|i: int, j: int| 0 <= i < j < m.len() ==> text_lt(#[trigger] m[i].0, #[trigger] m[j].0)
}

/// The rows read as a map, a later row for a key winning.
pub open spec fn rows_map<V>(m: Seq<(Seq<char>, V)>) -> Map<Seq<char>, V>
    decreases m.len(),
{
    if m.len() == 0 {
        Map::empty()
    } else {
        rows_map(m.drop_last()).insert(m.last().0, m.last().1)
    }
}

proof fn lemma_rows_map_dom<V>(m: Seq<(Seq<char>, V)>, k: Seq<char>)
    ensures
        rows_map(m).dom().contains(k) <==> exists|i: int| 0 <= i < m.len() && #[trigger] m[i].0 == k,
    decreases m.len(),
{
    if m.len() > 0 {
        lemma_rows_map_dom(m.drop_last(), k);
        if rows_map(m.drop_last()).dom().contains(k) {
            let i = choose|i: int| 0 <= i < m.drop_last().len() && #[trigger] m.drop_last()[i].0 == k;
            assert(m[i].0 == k);
        }
        if exists|i: int| 0 <= i < m.len() && #[trigger] m[i].0 == k {
            let i = choose|i: int| 0 <= i < m.len() && #[trigger] m[i].0 == k;
            if i < m.len() - 1 {
                assert(m.drop_last()[i].0 == k);
            }
        }
    }
}

/// Inserting into ascending rows keeps them ascending; read as a map,
/// the rows then give `v` for `k` and, for every other key, what they
/// gave before.
pub proof fn lemma_insert_key<V>(m: Seq<(Seq<char>, V)>, k: Seq<char>, v: V)
    requires
        keys_ascending(m),
    ensures
        keys_ascending(insert_key(m, k, v)),
        rows_map(insert_key(m, k, v)) == rows_map(m).insert(k, v),
        forall|i: int| 0 <= i < insert_key(m, k, v).len() ==>
            (#[trigger] insert_key(m, k, v)[i].0 == k || exists|j: int| 0 <= j < m.len() && m[j].0 == insert_key(m, k, v)[i].0),
    decreases m.len(),
{
    let r = insert_key(m, k, v);
    if m.len() == 0 {
        assert(r.drop_last() =~= m);
        assert(rows_map(r) == rows_map(m).insert(k, v));
    } else if m.last().0 == k {
        let d = m.drop_last();
        assert(r == d.push((k, v)));
        assert(r.drop_last() =~= d);
        assert forall|i: int, j: int| 0 <= i < j < r.len() implies text_lt(#[trigger] r[i].0, #[trigger] r[j].0) by {
            assert(m[i].0 == r[i].0);
            assert(m[j].0 == r[j].0);
        }
        assert(rows_map(m) == rows_map(d).insert(k, m.last().1));
        assert(rows_map(r) =~= rows_map(m).insert(k, v));
        assert forall|i: int| 0 <= i < r.len() implies
            (#[trigger] r[i].0 == k || exists|j: int| 0 <= j < m.len() && m[j].0 == r[i].0) by {
            if i < r.len() - 1 {
                assert(m[i].0 == r[i].0);
            }
        }
    } else if text_lt(m.last().0, k) {
        assert(r == m.push((k, v)));
        assert(r.drop_last() =~= m);
        assert forall|i: int, j: int| 0 <= i < j < r.len() implies text_lt(#[trigger] r[i].0, #[trigger] r[j].0) by {
            if j == r.len() - 1 {
                if i < m.len() - 1 {
                    lemma_text_lt_transitive(m[i].0, m.last().0, k);
                }
            } else {
                assert(m[i].0 == r[i].0);
                assert(m[j].0 == r[j].0);
            }
        }
        assert forall|i: int| 0 <= i < r.len() implies
            (#[trigger] r[i].0 == k || exists|j: int| 0 <= j < m.len() && m[j].0 == r[i].0) by {
            if i < r.len() - 1 {
                assert(m[i].0 == r[i].0);
            }
        }
    } else {
        let d = m.drop_last();
        let l = m.last();
        lemma_text_lt_total(l.0, k);
        assert forall|i: int, j: int| 0 <= i < j < d.len() implies text_lt(#[trigger] d[i].0, #[trigger] d[j].0) by {
            assert(d[i] == m[i]);
            assert(d[j] == m[j]);
        }
        lemma_insert_key(d, k, v);
        let rd = insert_key(d, k, v);
        assert(r == rd.push(l));
        assert(r.drop_last() =~= rd);
        // every key of rd is k or a key of d, each below l's
        assert forall|i: int| 0 <= i < rd.len() implies text_lt(#[trigger] rd[i].0, l.0) by {
            if rd[i].0 != k {
                let j = choose|j: int| 0 <= j < d.len() && d[j].0 == rd[i].0;
                assert(m[j].0 == d[j].0);
                assert(text_lt(m[j].0, m[m.len() - 1].0));
            }
        }
        assert forall|i: int, j: int| 0 <= i < j < r.len() implies text_lt(#[trigger] r[i].0, #[trigger] r[j].0) by {
            if j == r.len() - 1 {
                assert(r[i] == rd[i]);
                assert(text_lt(rd[i].0, l.0));
            } else {
                assert(r[i] == rd[i]);
                assert(r[j] == rd[j]);
            }
        }
        assert(rows_map(r) == rows_map(rd).insert(l.0, l.1));
        assert(rows_map(m) == rows_map(d).insert(l.0, l.1));
        assert(rows_map(r) =~= rows_map(m).insert(k, v));
        assert forall|i: int| 0 <= i < r.len() implies
            (#[trigger] r[i].0 == k || exists|j: int| 0 <= j < m.len() && m[j].0 == r[i].0) by {
            if i == r.len() - 1 {
                assert(m[m.len() - 1].0 == r[i].0);
            } else {
                assert(r[i] == rd[i]);
                if rd[i].0 != k {
                    let j = choose|j: int| 0 <= j < d.len() && d[j].0 == rd[i].0;
                    assert(m[j].0 == d[j].0);
                }
            }
        }
    }
}

pub struct IndexClaimV {
    pub file: Seq<char>,
    pub line: usize,
    pub kind: Seq<char>,
    pub evaluator: Seq<char>,
    pub depends: Seq<Seq<char>>,
    pub because: Seq<Seq<char>>,
}

impl View for IndexClaim {
    type V = IndexClaimV;

    open spec fn view(&self) -> IndexClaimV {
        IndexClaimV {
            file: self.file@,
            line: self.line,
            kind: self.kind@,
            evaluator: self.evaluator@,
            depends: self.depends.deep_view(),
            because: self.because.deep_view(),
        }
    }
}

pub open spec fn or_empty(o: Option<Seq<char>>) -> Seq<char> {
    match o {
        Some(s) => s,
        None => Seq::empty(),
    }
}

/// A claim's row.
pub open spec fn index_claim_of(c: ClaimV) -> IndexClaimV {
    IndexClaimV {
        file: c.file,
        line: c.block_line,
        kind: or_empty(c.raw.kind),
        evaluator: or_empty(c.raw.evaluator),
        depends: c.depends.map_values(|r: crate::model::CiteRefV| spec_ref_string(r)),
        because: c.because.map_values(|r: crate::model::CiteRefV| spec_ref_string(r)),
    }
}

/// The claim rows after the first `n` claims.
pub open spec fn claim_rows(cs: Seq<ClaimV>, n: int) -> Seq<(Seq<char>, IndexClaimV)>
    decreases n,
{
    if n <= 0 {
        Seq::empty()
    } else {
        insert_key(claim_rows(cs, n - 1), cs[n - 1].id, index_claim_of(cs[n - 1]))
    }
}

/// The document rows after the first `n` documents.
pub open spec fn document_rows(ds: Seq<DocumentV>, n: int) -> Seq<(Seq<char>, (Seq<char>, Seq<char>))>
    decreases n,
{
    if n <= 0 {
        Seq::empty()
    } else {
        insert_key(document_rows(ds, n - 1), ds[n - 1].doc_path, (ds[n - 1].file, ds[n - 1].genre_path))
    }
}

proof fn lemma_claim_rows_ascending(cs: Seq<ClaimV>, n: int)
    ensures
        keys_ascending(claim_rows(cs, n)),
    decreases n,
{
    if n > 0 {
        lemma_claim_rows_ascending(cs, n - 1);
        lemma_insert_key(claim_rows(cs, n - 1), cs[n - 1].id, index_claim_of(cs[n - 1]));
    }
}

proof fn lemma_document_rows_ascending(ds: Seq<DocumentV>, n: int)
    ensures
        keys_ascending(document_rows(ds, n)),
    decreases n,
{
    if n > 0 {
        lemma_document_rows_ascending(ds, n - 1);
        lemma_insert_key(document_rows(ds, n - 1), ds[n - 1].doc_path, (ds[n - 1].file, ds[n - 1].genre_path));
    }
}

pub open spec fn rows_view<V: View>(m: Seq<(String, V)>) -> Seq<(Seq<char>, V::V)> {
    m.map_values(|p: (String, V)| (p.0@, p.1@))
}

impl View for IndexDocument {
    type V = (Seq<char>, Seq<char>);

    open spec fn view(&self) -> (Seq<char>, Seq<char>) {
        (self.file@, self.genre@)
    }
}

/// Whether row `i`'s key is at or below `k`: where the scan from the end
/// stops.
fn at_or_below<V>(m: &Vec<(String, V)>, i: usize, k: &str) -> (r: bool)
    requires
        i < m@.len(),
    ensures
        r == (m@[i as int].0@ == k@ || text_lt(m@[i as int].0@, k@)),
{
    str_eq(m[i].0.as_str(), k) || less_than(&chars_of(m[i].0.as_str()), &chars_of(k))
}

/// Insert into a keyed row list; see [`insert_key`].
pub fn insert_row<V: View>(m: &mut Vec<(String, V)>, k: String, v: V)
    ensures
        rows_view(final(m)@) == insert_key(rows_view(old(m)@), k@, v@),
{
    let ghost m0 = rows_view(m@);
    let mut j: usize = m.len();
    proof { assert(m0.take(j as int) =~= m0); assert(m0.skip(j as int) =~= Seq::<(Seq<char>, V::V)>::empty()); }
    while j > 0 && !at_or_below(m, j - 1, k.as_str())
        invariant
            j <= m@.len(),
            m0 == rows_view(m@),
            insert_key(m0, k@, v@) == insert_key(m0.take(j as int), k@, v@) + m0.skip(j as int),
        decreases j,
    {
        let ghost t = m0.take(j as int);
        proof {
            assert(t.last() == m0[j - 1]);
            assert(t.drop_last() =~= m0.take(j - 1));
            assert(m0.skip(j - 1) =~= seq![m0[j - 1]] + m0.skip(j as int));
            assert(insert_key(t, k@, v@) == insert_key(t.drop_last(), k@, v@).push(t.last()));
            assert(insert_key(m0.take(j - 1), k@, v@).push(t.last()) + m0.skip(j as int) =~= insert_key(m0.take(j - 1), k@, v@) + m0.skip(j - 1));
        }
        j = j - 1;
    }
    let ghost t = m0.take(j as int);
    if j > 0 && str_eq(m[j - 1].0.as_str(), k.as_str()) {
        proof {
            assert(t.last() == m0[j - 1]);
            assert(insert_key(t, k@, v@) == t.drop_last().push((k@, v@)));
        }
        m.set(j - 1, (k, v));
        proof {
            assert(t.drop_last().push((k@, v@)) + m0.skip(j as int) =~= rows_view(m@));
        }
    } else {
        proof {
            if j > 0 {
                assert(t.last() == m0[j - 1]);
            }
            assert(insert_key(t, k@, v@) == t.push((k@, v@)));
        }
        m.insert(j, (k, v));
        proof {
            assert(t.push((k@, v@)) + m0.skip(j as int) =~= rows_view(m@));
        }
    }
}

/// Copies of the texts of `v`.
pub fn copy_strings(v: &Vec<String>) -> (r: Vec<String>)
    ensures
        r.deep_view() == v.deep_view(),
{
    let mut out: Vec<String> = Vec::new();
    let mut i: usize = 0;
    while i < v.len()
        invariant
            i <= v@.len(),
            out.deep_view() == v.deep_view().take(i as int),
        decreases v@.len() - i,
    {
        let ghost prev = out.deep_view();
        let t = owned(v[i].as_str());
        out.push(t);
        proof {
            assert(out.deep_view() =~= prev.push(t@));
            assert(v.deep_view().take(i + 1) =~= v.deep_view().take(i as int).push(v@[i as int]@));
        }
        i = i + 1;
    }
    proof { assert(v.deep_view().take(v@.len() as int) =~= v.deep_view()); }
    out
}

impl IndexClaim {
    /// A copy with the same fields.
    pub fn copy(&self) -> (r: IndexClaim)
        ensures
            r@ == self@,
    {
        IndexClaim {
            file: owned(self.file.as_str()),
            line: self.line,
            kind: owned(self.kind.as_str()),
            evaluator: owned(self.evaluator.as_str()),
            depends: copy_strings(&self.depends),
            because: copy_strings(&self.because),
        }
    }
}

impl Index {
    /// A copy with the same rows.
    pub fn copy(&self) -> (r: Index)
        ensures
            rows_view(r.claims@) == rows_view(self.claims@),
            rows_view(r.documents@) == rows_view(self.documents@),
    {
        let mut claims: Vec<(String, IndexClaim)> = Vec::new();
        let mut i: usize = 0;
        while i < self.claims.len()
            invariant
                i <= self.claims@.len(),
                rows_view(claims@) == rows_view(self.claims@).take(i as int),
            decreases self.claims@.len() - i,
        {
            let row = (owned(self.claims[i].0.as_str()), self.claims[i].1.copy());
            let ghost prev = rows_view(claims@);
            claims.push(row);
            proof {
                assert(rows_view(claims@) =~= prev.push((row.0@, row.1@)));
                assert(rows_view(self.claims@).take(i + 1) =~= rows_view(self.claims@).take(i as int).push((self.claims@[i as int].0@, self.claims@[i as int].1@)));
            }
            i = i + 1;
        }
        let mut documents: Vec<(String, IndexDocument)> = Vec::new();
        let mut j: usize = 0;
        while j < self.documents.len()
            invariant
                j <= self.documents@.len(),
                rows_view(documents@) == rows_view(self.documents@).take(j as int),
            decreases self.documents@.len() - j,
        {
            let d = &self.documents[j].1;
            let row = (owned(self.documents[j].0.as_str()), IndexDocument { file: owned(d.file.as_str()), genre: owned(d.genre.as_str()) });
            let ghost prev = rows_view(documents@);
            documents.push(row);
            proof {
                assert(rows_view(documents@) =~= prev.push((row.0@, row.1@)));
                assert(rows_view(self.documents@).take(j + 1) =~= rows_view(self.documents@).take(j as int).push((self.documents@[j as int].0@, self.documents@[j as int].1@)));
            }
            j = j + 1;
        }
        proof {
            assert(rows_view(self.claims@).take(self.claims@.len() as int) =~= rows_view(self.claims@));
            assert(rows_view(self.documents@).take(self.documents@.len() as int) =~= rows_view(self.documents@));
        }
        Index { claims, documents }
    }

    /// No rows.
    pub fn new() -> (r: Index)
        ensures
            r.claims@.len() == 0,
            r.documents@.len() == 0,
    {
        Index { claims: Vec::new(), documents: Vec::new() }
    }

    /// Map claim `id` to `row`, keeping keys ascending: a row already
    /// under `id` is replaced.
    pub fn insert_claim(&mut self, id: String, row: IndexClaim)
        ensures
            rows_view(final(self).claims@) == insert_key(rows_view(old(self).claims@), id@, row@),
            final(self).documents == old(self).documents,
    {
        insert_row(&mut self.claims, id, row);
    }

    /// Map document `doc_path` to `row`, keeping keys ascending.
    pub fn insert_document(&mut self, doc_path: String, row: IndexDocument)
        ensures
            rows_view(final(self).documents@) == insert_key(rows_view(old(self).documents@), doc_path@, row@),
            final(self).claims == old(self).claims,
    {
        insert_row(&mut self.documents, doc_path, row);
    }
}

/// The ids of `refs`, as text.
fn ref_texts(refs: &Vec<CiteRef>) -> (r: Vec<String>)
    ensures
        r.deep_view() == refs@.map_values(|c: CiteRef| c@).map_values(|x: crate::model::CiteRefV| spec_ref_string(x)),
{
    let mut out: Vec<String> = Vec::new();
    let mut i: usize = 0;
    while i < refs.len()
        invariant
            i <= refs@.len(),
            out.deep_view() == refs@.take(i as int).map_values(|c: CiteRef| c@).map_values(|x: crate::model::CiteRefV| spec_ref_string(x)),
        decreases refs@.len() - i,
    {
        let ghost prev = out.deep_view();
        let s = refs[i].to_string();
        out.push(s);
        proof {
            assert(out.deep_view() =~= prev.push(s@));
            assert(refs@.take(i + 1).map_values(|c: CiteRef| c@).map_values(|x: crate::model::CiteRefV| spec_ref_string(x))
                =~= refs@.take(i as int).map_values(|c: CiteRef| c@).map_values(|x: crate::model::CiteRefV| spec_ref_string(x)).push(spec_ref_string(refs@[i as int]@)));
        }
        i = i + 1;
    }
    proof { assert(refs@.take(refs@.len() as int) =~= refs@); }
    out
}

fn or_empty_string(o: &Option<String>) -> (r: String)
    ensures
        r@ == or_empty(o.deep_view()),
{
    match o {
        Some(s) => owned(s.as_str()),
        None => String::new(),
    }
}

/// The index of `corpus`: a row per claim id and per document path, keys
/// ascending, the last claim or document with a given key winning.
pub fn build_index(corpus: &Corpus) -> (r: Index)
    ensures
        rows_view(r.claims@) == claim_rows(claims_view(corpus.claims@), corpus.claims@.len() as int),
        rows_view(r.documents@) == document_rows(corpus@.documents, corpus.documents@.len() as int),
        keys_ascending(rows_view(r.claims@)),
        keys_ascending(rows_view(r.documents@)),
{
    let ghost cv = claims_view(corpus.claims@);
    let mut claims: Vec<(String, IndexClaim)> = Vec::new();
    let mut i: usize = 0;
    while i < corpus.claims.len()
        invariant
            i <= corpus.claims@.len(),
            cv == claims_view(corpus.claims@),
            rows_view(claims@) == claim_rows(cv, i as int),
        decreases corpus.claims@.len() - i,
    {
        let c = &corpus.claims[i];
        assert(cv[i as int] == c@);
        let row = IndexClaim {
            file: owned(c.file.as_str()),
            line: c.block_line.0,
            kind: or_empty_string(&c.raw.kind),
            evaluator: or_empty_string(&c.raw.evaluator),
            depends: ref_texts(&c.depends),
            because: ref_texts(&c.because),
        };
        proof {
            assert(row@ == index_claim_of(c@));
        }
        insert_row(&mut claims, owned(c.id.as_str()), row);
        i = i + 1;
    }
    let ghost dv = corpus@.documents;
    let mut documents: Vec<(String, IndexDocument)> = Vec::new();
    let mut j: usize = 0;
    while j < corpus.documents.len()
        invariant
            j <= corpus.documents@.len(),
            dv == corpus@.documents,
            rows_view(documents@) == document_rows(dv, j as int),
        decreases corpus.documents@.len() - j,
    {
        let d = &corpus.documents[j];
        assert(dv[j as int] == d@);
        let row = IndexDocument { file: owned(d.file.as_str()), genre: owned(d.genre_path.as_str()) };
        insert_row(&mut documents, owned(d.doc_path.as_str()), row);
        j = j + 1;
    }
    proof {
        lemma_claim_rows_ascending(cv, corpus.claims@.len() as int);
        lemma_document_rows_ascending(dv, corpus.documents@.len() as int);
    }
    Index { claims, documents }
}

} // verus!
