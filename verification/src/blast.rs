//! Blast radius: every claim that transitively cites a starting
//! reference (a claim id or a `path#anchor`), found by a depth-first walk
//! of the reverse citation graph, with every back edge reported as a
//! cycle rather than followed.

use vstd::prelude::*;
use crate::model::{
    anchor_matches, spec_anchor_matches, spec_parse_ref, spec_ref_string, spec_refs, Claim, ClaimV, CiteRef, CiteRefV, Corpus,
    CorpusV, DocumentV,
};
use crate::text::{owned, str_eq};

verus! {

/// A claim reached by the walk.
#[derive(Debug, Clone, PartialEq, Eq)]
pub struct BlastEntry {
    pub claim: String,
    pub file: String,
}

impl View for BlastEntry {
    type V = (Seq<char>, Seq<char>);

    open spec fn view(&self) -> (Seq<char>, Seq<char>) {
        (self.claim@, self.file@)
    }
}

/// A back edge: `claim` cites `ancestor` while `claim` is itself on the
/// path that led to `ancestor`.
#[derive(Debug, Clone, PartialEq, Eq)]
pub struct Cycle {
    pub claim: String,
    pub ancestor: String,
}

impl View for Cycle {
    type V = (Seq<char>, Seq<char>);

    open spec fn view(&self) -> (Seq<char>, Seq<char>) {
        (self.claim@, self.ancestor@)
    }
}

pub struct BlastResultV {
    pub entries: Seq<(Seq<char>, Seq<char>)>,
    pub cycles: Seq<(Seq<char>, Seq<char>)>,
}

/// The claims reached, in discovery order, and the back edges met.
#[derive(Debug, Clone)]
pub struct BlastResult {
    pub entries: Vec<BlastEntry>,
    pub cycles: Vec<Cycle>,
}

impl View for BlastResult {
    type V = BlastResultV;

    open spec fn view(&self) -> BlastResultV {
        BlastResultV {
            entries: self.entries@.map_values(|e: BlastEntry| e@),
            cycles: self.cycles@.map_values(|c: Cycle| c@),
        }
    }
}

/// Every declared reference of a claim, as text.
pub open spec fn ref_strings(c: ClaimV) -> Seq<Seq<char>> {
    spec_refs(c).map_values(|p: (crate::model::RefKind, crate::model::CiteRefV)| spec_ref_string(p.1))
}

/// Claim `i` once per reference among `rs`'s first `k` that is `node`.
pub open spec fn claim_hits(rs: Seq<Seq<char>>, node: Seq<char>, i: int, k: int) -> Seq<int>
    decreases k,
{
    if k <= 0 {
        Seq::empty()
    } else {
        claim_hits(rs, node, i, k - 1) + if rs[k - 1] == node { seq![i] } else { Seq::empty() }
    }
}

/// The citers of `node` among the first `n` claims, by index: each claim
/// once per reference it makes to `node`, in corpus order.
pub open spec fn citing(claims: Seq<ClaimV>, node: Seq<char>, n: int) -> Seq<int>
    decreases n,
{
    if n <= 0 {
        Seq::empty()
    } else {
        let rs = ref_strings(claims[n - 1]);
        citing(claims, node, n - 1) + claim_hits(rs, node, n - 1, rs.len() as int)
    }
}

#[verifier::ext_equal]
pub struct WalkV {
    pub visited: Seq<Seq<char>>,
    pub stack: Seq<Seq<char>>,
    pub entries: Seq<(Seq<char>, Seq<char>)>,
    pub cycles: Seq<(Seq<char>, Seq<char>)>,
}

/// Visit `node`: walk its citers in order (bounded by `fuel` levels of
/// depth, which the walk never exhausts).
pub open spec fn visit_spec(claims: Seq<ClaimV>, node: Seq<char>, st: WalkV, fuel: nat) -> WalkV
    decreases fuel, 1int, 0int,
{
    if fuel == 0 {
        st
    } else {
        visit_list(claims, node, citing(claims, node, claims.len() as int), 0, st, fuel)
    }
}

/// The citers `list[i..]` of `node`: one on the current path is a cycle;
/// one already visited is skipped; any other is recorded and visited in
/// turn.
pub open spec fn visit_list(claims: Seq<ClaimV>, node: Seq<char>, list: Seq<int>, i: int, st: WalkV, fuel: nat) -> WalkV
    decreases fuel, 0int, list.len() - i,
{
    if i < 0 || i >= list.len() || fuel == 0 {
        st
    } else {
        let c = claims[list[i]];
        if st.stack.contains(c.id) {
            visit_list(claims, node, list, i + 1, WalkV { cycles: st.cycles.push((c.id, node)), ..st }, fuel)
        } else if st.visited.contains(c.id) {
            visit_list(claims, node, list, i + 1, st, fuel)
        } else {
            let st1 = WalkV {
                visited: st.visited.push(c.id),
                stack: st.stack.push(c.id),
                entries: st.entries.push((c.id, c.file)),
                ..st
            };
            let st2 = visit_spec(claims, c.id, st1, (fuel - 1) as nat);
            visit_list(claims, node, list, i + 1, WalkV { stack: st2.stack.drop_last(), ..st2 }, fuel)
        }
    }
}

/// The blast radius of `start` over a corpus's claims.
pub open spec fn spec_blast_radius(claims: Seq<ClaimV>, start: Seq<char>) -> BlastResultV {
    let st = visit_spec(
        claims,
        start,
        WalkV { visited: seq![start], stack: seq![start], entries: Seq::empty(), cycles: Seq::empty() },
        (claims.len() + 1) as nat,
    );
    BlastResultV { entries: st.entries, cycles: st.cycles }
}

/// How many of the first `n` claims have an id not yet visited.
pub open spec fn unvisited(claims: Seq<ClaimV>, visited: Seq<Seq<char>>, n: int) -> nat
    decreases n,
{
    if n <= 0 {
        0
    } else {
        unvisited(claims, visited, n - 1) + if visited.contains(claims[n - 1].id) { 0nat } else { 1nat }
    }
}

proof fn lemma_unvisited_bound(claims: Seq<ClaimV>, visited: Seq<Seq<char>>, n: int)
    requires
        0 <= n,
    ensures
        unvisited(claims, visited, n) <= n,
    decreases n,
{
    if n > 0 {
        lemma_unvisited_bound(claims, visited, n - 1);
    }
}

proof fn lemma_unvisited_mono(claims: Seq<ClaimV>, v1: Seq<Seq<char>>, v2: Seq<Seq<char>>, n: int)
    requires
        forall|x: Seq<char>| v1.contains(x) ==> v2.contains(x),
    ensures
        unvisited(claims, v2, n) <= unvisited(claims, v1, n),
    decreases n,
{
    if n > 0 {
        lemma_unvisited_mono(claims, v1, v2, n - 1);
    }
}

proof fn lemma_unvisited_strict(claims: Seq<ClaimV>, v: Seq<Seq<char>>, j: int, n: int)
    requires
        0 <= j < n <= claims.len(),
        !v.contains(claims[j].id),
    ensures
        unvisited(claims, v.push(claims[j].id), n) < unvisited(claims, v, n),
    decreases n,
{
    let w = v.push(claims[j].id);
    assert(w.contains(claims[j].id)) by { assert(w[v.len() as int] == claims[j].id); }
    assert forall|x: Seq<char>| v.contains(x) implies w.contains(x) by {
        let k = choose|k: int| 0 <= k < v.len() && v[k] == x;
        assert(w[k] == x);
    }
    if j < n - 1 {
        lemma_unvisited_strict(claims, v, j, n - 1);
    } else {
        lemma_unvisited_mono(claims, v, w, n - 1);
    }
}

/// How many of `rs`'s first `k` are `node`.
pub open spec fn hit_count(rs: Seq<Seq<char>>, node: Seq<char>, k: int) -> nat
    decreases k,
{
    if k <= 0 {
        0
    } else {
        hit_count(rs, node, k - 1) + if rs[k - 1] == node { 1nat } else { 0nat }
    }
}

proof fn lemma_claim_hits_repeat(rs: Seq<Seq<char>>, node: Seq<char>, i: int, k: int)
    requires
        0 <= k <= rs.len(),
    ensures
        claim_hits(rs, node, i, k) == Seq::new(hit_count(rs, node, k), |j: int| i),
    decreases k,
{
    if k > 0 {
        lemma_claim_hits_repeat(rs, node, i, k - 1);
    }
    assert(claim_hits(rs, node, i, k) =~= Seq::new(hit_count(rs, node, k), |j: int| i));
}

proof fn lemma_hit_count_concat(a: Seq<Seq<char>>, b: Seq<Seq<char>>, node: Seq<char>, k: int)
    requires
        0 <= k <= b.len(),
    ensures
        hit_count(a + b, node, a.len() + k) == hit_count(a, node, a.len() as int) + hit_count(b, node, k),
    decreases k,
{
    if k > 0 {
        lemma_hit_count_concat(a, b, node, k - 1);
        assert((a + b)[a.len() + k - 1] == b[k - 1]);
    } else {
        lemma_hit_count_prefix(a, b, node, a.len() as int);
    }
}

proof fn lemma_hit_count_prefix(a: Seq<Seq<char>>, b: Seq<Seq<char>>, node: Seq<char>, k: int)
    requires
        0 <= k <= a.len(),
    ensures
        hit_count(a + b, node, k) == hit_count(a, node, k),
    decreases k,
{
    if k > 0 {
        lemma_hit_count_prefix(a, b, node, k - 1);
        assert((a + b)[k - 1] == a[k - 1]);
    }
}

/// A claim with its `depends` and `because` entries exchanged.
pub open spec fn swap_kinds(c: ClaimV) -> ClaimV {
    ClaimV { depends: c.because, because: c.depends, ..c }
}

proof fn lemma_ref_strings_split(c: ClaimV)
    ensures
        ref_strings(c) == c.depends.map_values(|r: crate::model::CiteRefV| spec_ref_string(r))
            + c.because.map_values(|r: crate::model::CiteRefV| spec_ref_string(r)),
{
    assert(ref_strings(c) =~= c.depends.map_values(|r: crate::model::CiteRefV| spec_ref_string(r))
        + c.because.map_values(|r: crate::model::CiteRefV| spec_ref_string(r)));
}

proof fn lemma_citing_swapped(claims: Seq<ClaimV>, node: Seq<char>, n: int)
    requires
        0 <= n <= claims.len(),
    ensures
        citing(claims.map_values(|c: ClaimV| swap_kinds(c)), node, n) == citing(claims, node, n),
    decreases n,
{
    if n > 0 {
        lemma_citing_swapped(claims, node, n - 1);
        let sw = claims.map_values(|c: ClaimV| swap_kinds(c));
        let c = claims[n - 1];
        assert(sw[n - 1] == swap_kinds(c));
        let d = c.depends.map_values(|r: crate::model::CiteRefV| spec_ref_string(r));
        let b = c.because.map_values(|r: crate::model::CiteRefV| spec_ref_string(r));
        lemma_ref_strings_split(c);
        lemma_ref_strings_split(swap_kinds(c));
        lemma_claim_hits_repeat(d + b, node, n - 1, (d + b).len() as int);
        lemma_claim_hits_repeat(b + d, node, n - 1, (b + d).len() as int);
        lemma_hit_count_concat(d, b, node, b.len() as int);
        lemma_hit_count_concat(b, d, node, d.len() as int);
    }
}

/// Two claim lists that the walk cannot tell apart: the same ids and
/// files, index for index, and the same citers of every node.
pub open spec fn same_graph(c1: Seq<ClaimV>, c2: Seq<ClaimV>) -> bool {
    &&& c1.len() == c2.len()
    &&& forall|k: int| 0 <= k < c1.len() ==> (#[trigger] c1[k]).id == c2[k].id && c1[k].file == c2[k].file
    &&& forall|node: Seq<char>| #[trigger] citing(c1, node, c1.len() as int) == citing(c2, node, c2.len() as int)
}

proof fn lemma_citing_range(claims: Seq<ClaimV>, node: Seq<char>, n: int)
    requires
        0 <= n <= claims.len(),
    ensures
        forall|k: int| 0 <= k < citing(claims, node, n).len() ==> 0 <= #[trigger] citing(claims, node, n)[k] < n,
    decreases n,
{
    if n > 0 {
        lemma_citing_range(claims, node, n - 1);
        let rs = ref_strings(claims[n - 1]);
        lemma_claim_hits_repeat(rs, node, n - 1, rs.len() as int);
        let prev = citing(claims, node, n - 1);
        assert forall|k: int| 0 <= k < citing(claims, node, n).len() implies 0 <= #[trigger] citing(claims, node, n)[k] < n by {
            if k < prev.len() {
                assert(citing(claims, node, n)[k] == prev[k]);
            }
        }
    }
}

proof fn lemma_visit_same(c1: Seq<ClaimV>, c2: Seq<ClaimV>, node: Seq<char>, st: WalkV, fuel: nat)
    requires
        same_graph(c1, c2),
    ensures
        visit_spec(c1, node, st, fuel) == visit_spec(c2, node, st, fuel),
    decreases fuel, 1int, 0int,
{
    if fuel > 0 {
        let list = citing(c1, node, c1.len() as int);
        assert(list == citing(c2, node, c2.len() as int));
        lemma_citing_range(c1, node, c1.len() as int);
        lemma_visit_list_same(c1, c2, node, list, 0, st, fuel);
    }
}

proof fn lemma_visit_list_same(c1: Seq<ClaimV>, c2: Seq<ClaimV>, node: Seq<char>, list: Seq<int>, i: int, st: WalkV, fuel: nat)
    requires
        same_graph(c1, c2),
        forall|k: int| 0 <= k < list.len() ==> 0 <= #[trigger] list[k] < c1.len(),
    ensures
        visit_list(c1, node, list, i, st, fuel) == visit_list(c2, node, list, i, st, fuel),
    decreases fuel, 0int, list.len() - i,
{
    if 0 <= i < list.len() && fuel > 0 {
        let a = c1[list[i]];
        let b = c2[list[i]];
        assert(a.id == b.id && a.file == b.file);
        if st.stack.contains(a.id) {
            lemma_visit_list_same(c1, c2, node, list, i + 1, WalkV { cycles: st.cycles.push((a.id, node)), ..st }, fuel);
        } else if st.visited.contains(a.id) {
            lemma_visit_list_same(c1, c2, node, list, i + 1, st, fuel);
        } else {
            let st1 = WalkV {
                visited: st.visited.push(a.id),
                stack: st.stack.push(a.id),
                entries: st.entries.push((a.id, a.file)),
                ..st
            };
            lemma_visit_same(c1, c2, a.id, st1, (fuel - 1) as nat);
            let st2 = visit_spec(c1, a.id, st1, (fuel - 1) as nat);
            lemma_visit_list_same(c1, c2, node, list, i + 1, WalkV { stack: st2.stack.drop_last(), ..st2 }, fuel);
        }
    }
}

/// Both kinds of declared reference enter the citation graph alike:
/// exchanging every claim's `depends` and `because` entries changes no
/// blast radius.
pub proof fn lemma_blast_kinds_alike(claims: Seq<ClaimV>, start: Seq<char>)
    ensures
        spec_blast_radius(claims.map_values(|c: ClaimV| swap_kinds(c)), start) == spec_blast_radius(claims, start),
{
    let sw = claims.map_values(|c: ClaimV| swap_kinds(c));
    assert forall|node: Seq<char>| #[trigger] citing(sw, node, sw.len() as int) == citing(claims, node, claims.len() as int) by {
        lemma_citing_swapped(claims, node, claims.len() as int);
    }
    assert forall|k: int| 0 <= k < sw.len() implies (#[trigger] sw[k]).id == claims[k].id && sw[k].file == claims[k].file by {
        assert(sw[k] == swap_kinds(claims[k]));
    }
    assert(same_graph(sw, claims));
    let st0 = WalkV { visited: seq![start], stack: seq![start], entries: Seq::empty(), cycles: Seq::empty() };
    lemma_visit_same(sw, claims, start, st0, (claims.len() + 1) as nat);
}

pub open spec fn claims_view(v: Seq<Claim>) -> Seq<ClaimV> {
    v.map_values(|c: Claim| c@)
}

// --- the blast radius is exactly the transitive citers ------------------------

/// `x` cites its way to `start` in at most `d` steps: `x` is `start`, or
/// a claim with id `x` declares a reference to a node that does.
pub open spec fn reach(claims: Seq<ClaimV>, start: Seq<char>, x: Seq<char>, d: nat) -> bool
    decreases d,
{
    if d == 0 {
        x == start
    } else {
        reach(claims, start, x, (d - 1) as nat) || exists|k: int, j: int|
            0 <= k < claims.len() && claims[k].id == x && 0 <= j < ref_strings(claims[k]).len() && reach(
                claims,
                start,
                #[trigger] ref_strings(claims[k])[j],
                (d - 1) as nat,
            )
    }
}

/// `x` reaches `start` through a chain of citations of any length.
pub open spec fn transitively_cites(claims: Seq<ClaimV>, start: Seq<char>, x: Seq<char>) -> bool {
    exists|d: nat| #[trigger] reach(claims, start, x, d)
}

/// Every claim with a reference to `x` has its id in `v`.
pub open spec fn citers_in(claims: Seq<ClaimV>, x: Seq<char>, v: Seq<Seq<char>>) -> bool {
    forall|k: int| 0 <= k < claims.len() && #[trigger] ref_strings(claims[k]).contains(x) ==> v.contains(claims[k].id)
}

proof fn lemma_claim_hits_mem(rs: Seq<Seq<char>>, node: Seq<char>, i: int, m: int)
    requires
        0 <= m <= rs.len(),
    ensures
        forall|t: int| 0 <= t < claim_hits(rs, node, i, m).len() ==> #[trigger] claim_hits(rs, node, i, m)[t] == i,
        claim_hits(rs, node, i, m).len() > 0 <==> exists|j: int| 0 <= j < m && rs[j] == node,
    decreases m,
{
    if m > 0 {
        lemma_claim_hits_mem(rs, node, i, m - 1);
        let prev = claim_hits(rs, node, i, m - 1);
        assert forall|t: int| 0 <= t < claim_hits(rs, node, i, m).len() implies #[trigger] claim_hits(rs, node, i, m)[t] == i by {
            if t < prev.len() {
                assert(claim_hits(rs, node, i, m)[t] == prev[t]);
            }
        }
        if prev.len() > 0 {
            let j = choose|j: int| 0 <= j < m - 1 && rs[j] == node;
            assert(0 <= j < m && rs[j] == node);
        }
    }
}

proof fn lemma_citing_mem(claims: Seq<ClaimV>, node: Seq<char>, n: int)
    requires
        0 <= n <= claims.len(),
    ensures
        forall|t: int| 0 <= t < citing(claims, node, n).len() ==> 0 <= #[trigger] citing(claims, node, n)[t] < n && ref_strings(
            claims[citing(claims, node, n)[t]],
        ).contains(node),
        forall|k: int| 0 <= k < n && #[trigger] ref_strings(claims[k]).contains(node) ==> exists|t: int| 0 <= t < citing(claims, node, n).len() && #[trigger] citing(claims, node, n)[t] == k,
    decreases n,
{
    if n > 0 {
        lemma_citing_mem(claims, node, n - 1);
        let prev = citing(claims, node, n - 1);
        let rs = ref_strings(claims[n - 1]);
        let hits = claim_hits(rs, node, n - 1, rs.len() as int);
        lemma_claim_hits_mem(rs, node, n - 1, rs.len() as int);
        let c = citing(claims, node, n);
        assert(c == prev + hits);
        assert forall|t: int| 0 <= t < c.len() implies 0 <= #[trigger] c[t] < n && ref_strings(claims[c[t]]).contains(node) by {
            if t < prev.len() {
                assert(c[t] == prev[t]);
            } else {
                assert(c[t] == hits[t - prev.len()]);
                assert(hits.len() > 0);
                let j = choose|j: int| 0 <= j < rs.len() && rs[j] == node;
                assert(rs.contains(node));
            }
        }
        assert forall|k: int| 0 <= k < n && #[trigger] ref_strings(claims[k]).contains(node) implies exists|t: int| 0 <= t < c.len() && #[trigger] c[t] == k by {
            if k < n - 1 {
                let t = choose|t: int| 0 <= t < prev.len() && #[trigger] prev[t] == k;
                assert(c[t] == prev[t]);
            } else {
                let j = choose|j: int| 0 <= j < rs.len() && rs[j] == node;
                assert(hits.len() > 0);
                assert(c[prev.len() as int] == hits[0]);
            }
        }
    }
}

proof fn lemma_reach_step(claims: Seq<ClaimV>, start: Seq<char>, y: Seq<char>, k: int, d: nat)
    requires
        reach(claims, start, y, d),
        0 <= k < claims.len(),
        ref_strings(claims[k]).contains(y),
    ensures
        reach(claims, start, claims[k].id, d + 1),
{
    let j = choose|j: int| 0 <= j < ref_strings(claims[k]).len() && ref_strings(claims[k])[j] == y;
    assert(reach(claims, start, ref_strings(claims[k])[j], d));
}

/// `x` has an entry in `st`.
pub open spec fn entered(st: WalkV, x: Seq<char>) -> bool {
    exists|k: int| 0 <= k < st.entries.len() && #[trigger] st.entries[k].0 == x
}

/// What every state of the walk from `start` keeps: `start` is visited,
/// every visited id reaches `start`, every entry is visited and is not
/// `start`, and every id on the path is visited.
pub open spec fn walk_inv(claims: Seq<ClaimV>, start: Seq<char>, st: WalkV) -> bool {
    &&& st.visited.contains(start)
    &&& forall|x: Seq<char>| #[trigger] st.visited.contains(x) ==> transitively_cites(claims, start, x)
    &&& forall|k: int| 0 <= k < st.entries.len() ==> st.visited.contains(#[trigger] st.entries[k].0) && st.entries[k].0 != start
    &&& forall|x: Seq<char>| #[trigger] st.stack.contains(x) ==> st.visited.contains(x)
}

/// What one call adds to the walk: the path is as it was, nothing visited
/// is forgotten, earlier entries stay, and every id newly visited has all
/// its citers visited and an entry.
pub open spec fn walk_grows(claims: Seq<ClaimV>, st: WalkV, r: WalkV) -> bool {
    &&& r.stack == st.stack
    &&& forall|x: Seq<char>| #[trigger] st.visited.contains(x) ==> r.visited.contains(x)
    &&& st.entries.len() <= r.entries.len()
    &&& forall|k: int| 0 <= k < st.entries.len() ==> #[trigger] r.entries[k] == st.entries[k]
    &&& forall|x: Seq<char>| #[trigger] r.visited.contains(x) && !st.visited.contains(x) ==> citers_in(claims, x, r.visited) && entered(r, x)
}

proof fn lemma_citers_in_mono(claims: Seq<ClaimV>, x: Seq<char>, v: Seq<Seq<char>>, w: Seq<Seq<char>>)
    requires
        citers_in(claims, x, v),
        forall|y: Seq<char>| #[trigger] v.contains(y) ==> w.contains(y),
    ensures
        citers_in(claims, x, w),
{
    assert forall|k: int| 0 <= k < claims.len() && #[trigger] ref_strings(claims[k]).contains(x) implies w.contains(claims[k].id) by {
        assert(v.contains(claims[k].id));
    }
}

proof fn lemma_walk_grows_trans(claims: Seq<ClaimV>, a: WalkV, b: WalkV, c: WalkV)
    requires
        walk_grows(claims, a, b),
        walk_grows(claims, b, c),
    ensures
        walk_grows(claims, a, c),
{
    assert forall|x: Seq<char>| #[trigger] c.visited.contains(x) && !a.visited.contains(x) implies citers_in(claims, x, c.visited) && entered(c, x) by {
        if b.visited.contains(x) {
            lemma_citers_in_mono(claims, x, b.visited, c.visited);
            let k = choose|k: int| 0 <= k < b.entries.len() && #[trigger] b.entries[k].0 == x;
            assert(c.entries[k] == b.entries[k]);
        }
    }
}

proof fn lemma_visit_reach(claims: Seq<ClaimV>, start: Seq<char>, node: Seq<char>, st: WalkV, fuel: nat)
    requires
        walk_inv(claims, start, st),
        transitively_cites(claims, start, node),
        fuel > unvisited(claims, st.visited, claims.len() as int),
    ensures
        walk_inv(claims, start, visit_spec(claims, node, st, fuel)),
        walk_grows(claims, st, visit_spec(claims, node, st, fuel)),
        citers_in(claims, node, visit_spec(claims, node, st, fuel).visited),
    decreases fuel, 1int, 0int,
{
    let list = citing(claims, node, claims.len() as int);
    lemma_citing_mem(claims, node, claims.len() as int);
    lemma_visit_list_reach(claims, start, node, list, 0, st, fuel);
    let r = visit_spec(claims, node, st, fuel);
    assert forall|k: int| 0 <= k < claims.len() && #[trigger] ref_strings(claims[k]).contains(node) implies r.visited.contains(claims[k].id) by {
        let t = choose|t: int| 0 <= t < list.len() && #[trigger] list[t] == k;
        assert(r.visited.contains(claims[list[t]].id));
    }
}

#[verifier::spinoff_prover]
#[verifier::rlimit(60)]
proof fn lemma_visit_list_reach(claims: Seq<ClaimV>, start: Seq<char>, node: Seq<char>, list: Seq<int>, i: int, st: WalkV, fuel: nat)
    requires
        walk_inv(claims, start, st),
        transitively_cites(claims, start, node),
        fuel > unvisited(claims, st.visited, claims.len() as int),
        list == citing(claims, node, claims.len() as int),
        0 <= i <= list.len(),
        forall|t: int| 0 <= t < list.len() ==> 0 <= #[trigger] list[t] < claims.len() && ref_strings(claims[list[t]]).contains(node),
    ensures
        walk_inv(claims, start, visit_list(claims, node, list, i, st, fuel)),
        walk_grows(claims, st, visit_list(claims, node, list, i, st, fuel)),
        forall|t: int| i <= t < list.len() ==> visit_list(claims, node, list, i, st, fuel).visited.contains(#[trigger] claims[list[t]].id),
    decreases fuel, 0int, list.len() - i,
{
    let r = visit_list(claims, node, list, i, st, fuel);
    if i >= list.len() {
        return;
    }
    let c = claims[list[i]];
    let d = choose|d: nat| #[trigger] reach(claims, start, node, d);
    lemma_reach_step(claims, start, node, list[i], d);
    assert(transitively_cites(claims, start, c.id));
    if st.stack.contains(c.id) {
        let st1 = WalkV { cycles: st.cycles.push((c.id, node)), ..st };
        lemma_visit_list_reach(claims, start, node, list, i + 1, st1, fuel);
        assert(st.visited.contains(c.id));
    } else if st.visited.contains(c.id) {
        lemma_visit_list_reach(claims, start, node, list, i + 1, st, fuel);
    } else {
        let st1 = WalkV {
            visited: st.visited.push(c.id),
            stack: st.stack.push(c.id),
            entries: st.entries.push((c.id, c.file)),
            ..st
        };
        assert(st1.visited.contains(c.id)) by { assert(st1.visited[st.visited.len() as int] == c.id); }
        assert forall|x: Seq<char>| #[trigger] st1.visited.contains(x) implies transitively_cites(claims, start, x) by {
            if x != c.id {
                let k = choose|k: int| 0 <= k < st1.visited.len() && st1.visited[k] == x;
                assert(st.visited[k] == x);
                assert(st.visited.contains(x));
            }
        }
        assert forall|x: Seq<char>| #[trigger] st.visited.contains(x) implies st1.visited.contains(x) by {
            let k = choose|k: int| 0 <= k < st.visited.len() && st.visited[k] == x;
            assert(st1.visited[k] == x);
        }
        assert forall|k: int| 0 <= k < st1.entries.len() implies st1.visited.contains(#[trigger] st1.entries[k].0) && st1.entries[k].0 != start by {
            if k < st.entries.len() {
                assert(st1.entries[k] == st.entries[k]);
            } else {
                assert(st1.entries[k].0 == c.id);
                assert(c.id != start);
            }
        }
        assert forall|x: Seq<char>| #[trigger] st1.stack.contains(x) implies st1.visited.contains(x) by {
            if x != c.id {
                let k = choose|k: int| 0 <= k < st1.stack.len() && st1.stack[k] == x;
                assert(st.stack[k] == x);
                assert(st.stack.contains(x));
                assert(st.visited.contains(x));
                let m = choose|m: int| 0 <= m < st.visited.len() && st.visited[m] == x;
                assert(st1.visited[m] == x);
            }
        }
        assert(walk_inv(claims, start, st1));
        lemma_unvisited_strict(claims, st.visited, list[i], claims.len() as int);
        let st2 = visit_spec(claims, c.id, st1, (fuel - 1) as nat);
        lemma_visit_reach(claims, start, c.id, st1, (fuel - 1) as nat);
        let st3 = WalkV { stack: st2.stack.drop_last(), ..st2 };
        assert(st2.stack == st.stack.push(c.id));
        assert(st3.stack =~= st.stack);
        assert forall|x: Seq<char>| #[trigger] st3.stack.contains(x) implies st3.visited.contains(x) by {
            assert(st.visited.contains(x));
            assert(st1.visited.contains(x));
        }
        assert(walk_inv(claims, start, st3));
        assert(entered(st1, c.id)) by { assert(st1.entries[st.entries.len() as int].0 == c.id); }
        assert(walk_grows(claims, st, st3)) by {
            assert forall|x: Seq<char>| #[trigger] st3.visited.contains(x) && !st.visited.contains(x) implies citers_in(claims, x, st3.visited) && entered(st3, x) by {
                if x == c.id {
                    let k = st.entries.len() as int;
                    assert(st2.entries[k] == st1.entries[k]);
                    assert(st3.entries[k].0 == x);
                } else {
                    assert(!st1.visited.contains(x)) by {
                        if st1.visited.contains(x) {
                            let k = choose|k: int| 0 <= k < st1.visited.len() && st1.visited[k] == x;
                            assert(st.visited[k] == x);
                        }
                    }
                    assert(st2.visited.contains(x));
                    assert(entered(st2, x));
                    let k = choose|k: int| 0 <= k < st2.entries.len() && #[trigger] st2.entries[k].0 == x;
                    assert(st3.entries[k].0 == x);
                }
            }
            assert forall|k: int| 0 <= k < st.entries.len() implies #[trigger] st3.entries[k] == st.entries[k] by {
                assert(st2.entries[k] == st1.entries[k]);
            }
        }
        lemma_unvisited_mono(claims, st.visited, st3.visited, claims.len() as int);
        lemma_visit_list_reach(claims, start, node, list, i + 1, st3, fuel);
        lemma_walk_grows_trans(claims, st, st3, r);
    }
    assert forall|t: int| i <= t < list.len() implies r.visited.contains(#[trigger] claims[list[t]].id) by {
        if t == i {
        }
    }
}

proof fn lemma_reach_closed(claims: Seq<ClaimV>, start: Seq<char>, v: Seq<Seq<char>>, x: Seq<char>, d: nat)
    requires
        v.contains(start),
        forall|y: Seq<char>| #[trigger] v.contains(y) ==> citers_in(claims, y, v),
        reach(claims, start, x, d),
    ensures
        v.contains(x),
    decreases d,
{
    if d > 0 {
        if reach(claims, start, x, (d - 1) as nat) {
            lemma_reach_closed(claims, start, v, x, (d - 1) as nat);
        } else {
            let (k, j) = choose|k: int, j: int|
                0 <= k < claims.len() && claims[k].id == x && 0 <= j < ref_strings(claims[k]).len() && reach(
                    claims,
                    start,
                    #[trigger] ref_strings(claims[k])[j],
                    (d - 1) as nat,
                );
            let y = ref_strings(claims[k])[j];
            lemma_reach_closed(claims, start, v, y, (d - 1) as nat);
            assert(citers_in(claims, y, v));
            assert(ref_strings(claims[k]).contains(y));
        }
    }
}

/// The blast radius of `start` is exactly its transitive citers: a claim
/// id has an entry if and only if it is not `start` and some chain of
/// declared references (`depends` or `because`) leads from it to `start`.
pub proof fn lemma_blast_radius_is_transitive_citers(claims: Seq<ClaimV>, start: Seq<char>)
    ensures
        forall|x: Seq<char>|
            (exists|k: int| 0 <= k < spec_blast_radius(claims, start).entries.len() && #[trigger] spec_blast_radius(claims, start).entries[k].0 == x)
                <==> (x != start && transitively_cites(claims, start, x)),
{
    let st0 = WalkV { visited: seq![start], stack: seq![start], entries: Seq::empty(), cycles: Seq::empty() };
    let fuel = (claims.len() + 1) as nat;
    assert(st0.visited[0] == start);
    assert(reach(claims, start, start, 0));
    assert(transitively_cites(claims, start, start));
    assert forall|x: Seq<char>| #[trigger] st0.visited.contains(x) implies transitively_cites(claims, start, x) by {
        assert(st0.visited[0] == x);
    }
    assert forall|x: Seq<char>| #[trigger] st0.stack.contains(x) implies st0.visited.contains(x) by {
        assert(st0.stack[0] == x);
    }
    assert(walk_inv(claims, start, st0));
    lemma_unvisited_bound(claims, st0.visited, claims.len() as int);
    lemma_visit_reach(claims, start, start, st0, fuel);
    let r = visit_spec(claims, start, st0, fuel);
    assert(r.visited.contains(start));
    assert forall|y: Seq<char>| #[trigger] r.visited.contains(y) implies citers_in(claims, y, r.visited) by {
        if y != start {
            assert(!st0.visited.contains(y)) by {
                if st0.visited.contains(y) {
                    assert(st0.visited[0] == y);
                }
            }
        }
    }
    let e = spec_blast_radius(claims, start).entries;
    assert(e == r.entries);
    assert forall|x: Seq<char>|
        (exists|k: int| 0 <= k < e.len() && #[trigger] e[k].0 == x) <==> (x != start && transitively_cites(claims, start, x)) by {
        if exists|k: int| 0 <= k < e.len() && #[trigger] e[k].0 == x {
            let k = choose|k: int| 0 <= k < e.len() && #[trigger] e[k].0 == x;
            assert(r.visited.contains(r.entries[k].0));
        }
        if x != start && transitively_cites(claims, start, x) {
            let d = choose|d: nat| #[trigger] reach(claims, start, x, d);
            lemma_reach_closed(claims, start, r.visited, x, d);
            assert(!st0.visited.contains(x)) by {
                if st0.visited.contains(x) {
                    assert(st0.visited[0] == x);
                }
            }
            assert(entered(r, x));
        }
    }
}

/// The citers of `node`, as indices into `claims`.
pub fn citers_of(claims: &Vec<Claim>, node: &str) -> (r: Vec<usize>)
    ensures
        r@.map_values(|i: usize| i as int) == citing(claims_view(claims@), node@, claims@.len() as int),
        forall|k: int| 0 <= k < r@.len() ==> r@[k] < claims@.len(),
{
    let ghost cv = claims_view(claims@);
    let mut out: Vec<usize> = Vec::new();
    let mut n: usize = 0;
    while n < claims.len()
        invariant
            n <= claims@.len(),
            cv == claims_view(claims@),
            out@.map_values(|i: usize| i as int) == citing(cv, node@, n as int),
            forall|k: int| 0 <= k < out@.len() ==> out@[k] < claims@.len(),
        decreases claims@.len() - n,
    {
        let refs = claims[n].refs();
        let ghost rs = ref_strings(cv[n as int]);
        assert(rs == refs@.map_values(|p: (crate::model::RefKind, crate::model::CiteRef)| (p.0, p.1@)).map_values(
            |p: (crate::model::RefKind, crate::model::CiteRefV)| spec_ref_string(p.1),
        ));
        let ghost base = out@.map_values(|i: usize| i as int);
        let mut k: usize = 0;
        while k < refs.len()
            invariant
                k <= refs@.len(),
                n < claims@.len(),
                rs.len() == refs@.len(),
                forall|m: int| 0 <= m < refs@.len() ==> #[trigger] rs[m] == spec_ref_string(refs@[m].1@),
                out@.map_values(|i: usize| i as int) == base + claim_hits(rs, node@, n as int, k as int),
                forall|m: int| 0 <= m < out@.len() ==> out@[m] < claims@.len(),
            decreases refs@.len() - k,
        {
            let s = refs[k].1.to_string();
            let ghost prev = out@.map_values(|i: usize| i as int);
            if str_eq(s.as_str(), node) {
                out.push(n);
                proof { assert(out@.map_values(|i: usize| i as int) =~= prev + seq![n as int]); }
            } else {
                proof { assert(out@.map_values(|i: usize| i as int) =~= prev + Seq::<int>::empty()); }
            }
            proof {
                assert(rs[k as int] == s@);
                assert(base + claim_hits(rs, node@, n as int, k + 1) =~= base + claim_hits(rs, node@, n as int, k as int)
                    + if rs[k as int] == node@ { seq![n as int] } else { Seq::<int>::empty() });
            }
            k = k + 1;
        }
        n = n + 1;
    }
    out
}

fn contains_str(v: &Vec<String>, s: &str) -> (r: bool)
    ensures
        r == v@.map_values(|x: String| x@).contains(s@),
{
    let ghost m = v@.map_values(|x: String| x@);
    let mut i: usize = 0;
    while i < v.len()
        invariant
            i <= v@.len(),
            m == v@.map_values(|x: String| x@),
            forall|k: int| 0 <= k < i ==> m[k] != s@,
        decreases v@.len() - i,
    {
        if str_eq(v[i].as_str(), s) {
            assert(m[i as int] == s@);
            return true;
        }
        i = i + 1;
    }
    false
}

pub open spec fn walk_view(visited: Seq<String>, stack: Seq<String>, entries: Seq<BlastEntry>, cycles: Seq<Cycle>) -> WalkV {
    WalkV {
        visited: visited.map_values(|s: String| s@),
        stack: stack.map_values(|s: String| s@),
        entries: entries.map_values(|e: BlastEntry| e@),
        cycles: cycles.map_values(|c: Cycle| c@),
    }
}

pub open spec fn entry_ids(entries: Seq<BlastEntry>) -> Seq<Seq<char>> {
    entries.map_values(|e: BlastEntry| e.claim@)
}

pub open spec fn no_dups(s: Seq<Seq<char>>) -> bool {
    forall|i: int, j: int| 0 <= i < j < s.len() ==> s[i] != s[j]
}

pub open spec fn is_prefix(a: Seq<Seq<char>>, b: Seq<Seq<char>>) -> bool {
    a.len() <= b.len() && b.take(a.len() as int) == a
}

fn visit(
    claims: &Vec<Claim>,
    node: &str,
    visited: &mut Vec<String>,
    stack: &mut Vec<String>,
    entries: &mut Vec<BlastEntry>,
    cycles: &mut Vec<Cycle>,
    Ghost(fuel): Ghost<nat>,
)
    requires
        fuel > unvisited(claims_view(claims@), old(visited)@.map_values(|s: String| s@), claims@.len() as int),
        old(visited)@.len() + unvisited(claims_view(claims@), old(visited)@.map_values(|s: String| s@), claims@.len() as int) <= claims@.len() + 1,
    ensures
        walk_view(final(visited)@, final(stack)@, final(entries)@, final(cycles)@)
            == visit_spec(claims_view(claims@), node@, walk_view(old(visited)@, old(stack)@, old(entries)@, old(cycles)@), fuel),
        final(stack)@.map_values(|s: String| s@) == old(stack)@.map_values(|s: String| s@),
        is_prefix(old(visited)@.map_values(|s: String| s@), final(visited)@.map_values(|s: String| s@)),
        final(visited)@.len() + unvisited(claims_view(claims@), final(visited)@.map_values(|s: String| s@), claims@.len() as int) <= claims@.len() + 1,
        old(entries)@.len() <= final(entries)@.len(),
        final(entries)@.take(old(entries)@.len() as int) == old(entries)@,
        final(visited)@.map_values(|s: String| s@) == old(visited)@.map_values(|s: String| s@)
            + entry_ids(final(entries)@.skip(old(entries)@.len() as int)),
        no_dups(old(visited)@.map_values(|s: String| s@)) ==> no_dups(final(visited)@.map_values(|s: String| s@)),
    decreases fuel,
{
    let ghost cv = claims_view(claims@);
    let list = citers_of(claims, node);
    let ghost lv = list@.map_values(|i: usize| i as int);
    let ghost st0 = walk_view(visited@, stack@, entries@, cycles@);
    let ghost vis0 = visited@.map_values(|s: String| s@);
    let ghost stack0 = stack@.map_values(|s: String| s@);
    let ghost entries0 = entries@;
    proof {
        assert(vis0.take(vis0.len() as int) =~= vis0);
        assert(entries@.take(entries0.len() as int) =~= entries0);
        assert(vis0 + entry_ids(entries@.skip(entries0.len() as int)) =~= vis0);
    }
    let mut i: usize = 0;
    while i < list.len()
        invariant
            i <= list@.len(),
            fuel > 0,
            cv == claims_view(claims@),
            lv == list@.map_values(|i: usize| i as int),
            lv == citing(cv, node@, cv.len() as int),
            forall|k: int| 0 <= k < list@.len() ==> list@[k] < claims@.len(),
            fuel > unvisited(cv, visited@.map_values(|s: String| s@), cv.len() as int),
            visited@.len() + unvisited(cv, visited@.map_values(|s: String| s@), cv.len() as int) <= cv.len() + 1,
            stack@.map_values(|s: String| s@) == stack0,
            is_prefix(vis0, visited@.map_values(|s: String| s@)),
            entries0.len() <= entries@.len(),
            entries@.take(entries0.len() as int) == entries0,
            visited@.map_values(|s: String| s@) == vis0 + entry_ids(entries@.skip(entries0.len() as int)),
            no_dups(vis0) ==> no_dups(visited@.map_values(|s: String| s@)),
            visit_list(cv, node@, lv, 0, st0, fuel) == visit_list(cv, node@, lv, i as int, walk_view(visited@, stack@, entries@, cycles@), fuel),
        decreases list@.len() - i,
    {
        let c = &claims[list[i]];
        let ghost st = walk_view(visited@, stack@, entries@, cycles@);
        assert(cv[lv[i as int]] == c@);
        if contains_str(stack, c.id.as_str()) {
            let cy = Cycle { claim: c.id.clone(), ancestor: owned(node) };
            cycles.push(cy);
            proof {
                assert(walk_view(visited@, stack@, entries@, cycles@) =~= WalkV { cycles: st.cycles.push((c@.id, node@)), ..st });
            }
        } else if contains_str(visited, c.id.as_str()) {
        } else {
            let ghost vis_before = visited@.map_values(|s: String| s@);
            proof {
                let j = lv[i as int];
                lemma_unvisited_strict(cv, vis_before, j, cv.len() as int);
                lemma_unvisited_bound(cv, vis_before.push(c@.id), cv.len() as int);
            }
            let ghost entries_before = entries@;
            visited.push(c.id.clone());
            stack.push(c.id.clone());
            entries.push(BlastEntry { claim: c.id.clone(), file: c.file.clone() });
            proof {
                assert(visited@.map_values(|s: String| s@) =~= vis_before.push(c@.id));
                assert(entries@.take(entries0.len() as int) =~= entries_before.take(entries0.len() as int));
                assert(entry_ids(entries@.skip(entries0.len() as int)) =~= entry_ids(entries_before.skip(entries0.len() as int)).push(c@.id));
                assert(vis_before.push(c@.id) =~= vis0 + entry_ids(entries@.skip(entries0.len() as int)));
                if no_dups(vis0) {
                    let w = vis_before.push(c@.id);
                    assert forall|a: int, b: int| 0 <= a < b < w.len() implies w[a] != w[b] by {
                        if b == vis_before.len() {
                            assert(vis_before.contains(w[a]));
                        }
                    }
                }
                assert(walk_view(visited@, stack@, entries@, cycles@) =~= WalkV {
                    visited: st.visited.push(c@.id),
                    stack: st.stack.push(c@.id),
                    entries: st.entries.push((c@.id, c@.file)),
                    ..st
                });
            }
            let ghost vis_mid = visited@.map_values(|s: String| s@);
            let ghost stack_mid = stack@.map_values(|s: String| s@);
            let ghost entries_mid = entries@;
            visit(claims, c.id.as_str(), visited, stack, entries, cycles, Ghost((fuel - 1) as nat));
            let ghost st2 = walk_view(visited@, stack@, entries@, cycles@);
            let popped = stack.pop();
            proof {
                assert(stack_mid.drop_last() =~= stack0);
                assert(stack@.map_values(|s: String| s@) =~= stack_mid.drop_last());
                assert(walk_view(visited@, stack@, entries@, cycles@) =~= WalkV { stack: st2.stack.drop_last(), ..st2 });
                let vis_after = visited@.map_values(|s: String| s@);
                assert forall|x: Seq<char>| vis_mid.contains(x) implies vis_after.contains(x) by {
                    let k = choose|k: int| 0 <= k < vis_mid.len() && vis_mid[k] == x;
                    assert(vis_after.take(vis_mid.len() as int)[k] == x);
                    assert(vis_after[k] == x);
                }
                lemma_unvisited_mono(cv, vis_mid, vis_after, cv.len() as int);
                assert(vis_after.take(vis0.len() as int) =~= vis_mid.take(vis0.len() as int));
                assert(vis_mid.take(vis0.len() as int) =~= vis_before.take(vis0.len() as int));
                assert(entries@.take(entries_mid.len() as int) == entries_mid);
                assert(entries@.take(entries0.len() as int) =~= entries_mid.take(entries0.len() as int));
                assert(entries@.skip(entries0.len() as int) =~= entries_mid.skip(entries0.len() as int) + entries@.skip(entries_mid.len() as int));
                assert(entry_ids(entries@.skip(entries0.len() as int)) =~= entry_ids(entries_mid.skip(entries0.len() as int)) + entry_ids(entries@.skip(entries_mid.len() as int)));
                assert(vis_after =~= vis0 + entry_ids(entries@.skip(entries0.len() as int)));
            }
        }
        i = i + 1;
    }
}

/// Every claim that transitively cites `start`, depth-first in citation
/// order, each at most once; a citer already on the current path is
/// reported as a cycle instead of followed. An id nothing cites gives an
/// empty result.
pub fn blast_radius(corpus: &Corpus, start: &str) -> (r: BlastResult)
    ensures
        r@ == spec_blast_radius(claims_view(corpus.claims@), start@),
        no_dups(entry_ids(r.entries@)),
        !entry_ids(r.entries@).contains(start@),
{
    let mut visited: Vec<String> = Vec::new();
    visited.push(owned(start));
    let mut stack: Vec<String> = Vec::new();
    stack.push(owned(start));
    let mut entries: Vec<BlastEntry> = Vec::new();
    let mut cycles: Vec<Cycle> = Vec::new();
    let ghost cv = claims_view(corpus.claims@);
    proof {
        lemma_unvisited_bound(cv, visited@.map_values(|s: String| s@), cv.len() as int);
        assert(walk_view(visited@, stack@, entries@, cycles@) =~= WalkV {
            visited: seq![start@],
            stack: seq![start@],
            entries: Seq::empty(),
            cycles: Seq::empty(),
        });
    }
    proof { assert(no_dups(visited@.map_values(|s: String| s@))); }
    visit(&corpus.claims, start, &mut visited, &mut stack, &mut entries, &mut cycles, Ghost((cv.len() + 1) as nat));
    proof {
        let v = visited@.map_values(|s: String| s@);
        assert(entries@.skip(0) =~= entries@);
        assert(v =~= seq![start@] + entry_ids(entries@));
        let ids = entry_ids(entries@);
        assert forall|a: int, b: int| 0 <= a < b < ids.len() implies ids[a] != ids[b] by {
            assert(v[a + 1] == ids[a]);
            assert(v[b + 1] == ids[b]);
        }
        if ids.contains(start@) {
            let k = choose|k: int| 0 <= k < ids.len() && ids[k] == start@;
            assert(v[k + 1] == start@);
            assert(v[0] == start@);
        }
    }
    BlastResult { entries, cycles }
}

/// Why a blast target is not in the corpus.
#[derive(Debug, Clone, PartialEq, Eq)]
pub enum TargetError {
    /// A bare id that names no claim.
    UnknownClaim(String),
    /// A `path#anchor` whose document is not scanned, or has no heading
    /// the anchor addresses.
    UnresolvedAnchor(String),
}

/// Whether `target` names something in the corpus: a claim id must be
/// some claim's; a document anchor must address a heading of the
/// document with that path (the first one, if several share it).
pub open spec fn spec_target_resolves(c: CorpusV, target: CiteRefV) -> bool {
    match target {
        CiteRefV::Claim(id) => exists|k: int| 0 <= k < c.claims.len() && (#[trigger] c.claims[k]).id == id,
        CiteRefV::DocAnchor(path, anchor) => match first_document(c.documents, path, 0) {
            Some(d) => doc_has_anchor(c.documents[d], anchor),
            None => false,
        },
    }
}

/// Whether `anchor` addresses some heading of `doc`.
pub open spec fn doc_has_anchor(doc: DocumentV, anchor: Seq<char>) -> bool {
    exists|h: int| 0 <= h < doc.headings.len() && spec_anchor_matches((#[trigger] doc.headings[h]).text, anchor)
}

/// The index of the first document with path `path`.
pub open spec fn first_document(ds: Seq<DocumentV>, path: Seq<char>, i: int) -> Option<int>
    decreases ds.len() - i,
{
    if i < 0 || i >= ds.len() {
        None
    } else if ds[i].doc_path == path {
        Some(i)
    } else {
        first_document(ds, path, i + 1)
    }
}

/// Check that a blast target resolves before walking from it.
pub fn check_target(corpus: &Corpus, target: &str) -> (r: Result<(), TargetError>)
    ensures
        r is Ok <==> spec_target_resolves(corpus@, spec_parse_ref(target@)),
        r matches Err(TargetError::UnknownClaim(id)) ==> spec_parse_ref(target@) == CiteRefV::Claim(id@),
        r matches Err(TargetError::UnresolvedAnchor(t)) ==> t@ == target@ && spec_parse_ref(target@) is DocAnchor,
{
    let ghost cv = corpus@;
    match CiteRef::parse(target) {
        CiteRef::Claim(id) => {
            let mut k: usize = 0;
            while k < corpus.claims.len()
                invariant
                    k <= corpus.claims@.len(),
                    cv == corpus@,
                    spec_parse_ref(target@) == CiteRefV::Claim(id@),
                    forall|j: int| 0 <= j < k ==> (#[trigger] cv.claims[j]).id != id@,
                decreases corpus.claims@.len() - k,
            {
                assert(cv.claims[k as int] == corpus.claims@[k as int]@);
                if str_eq(corpus.claims[k].id.as_str(), id.as_str()) {
                    assert(cv.claims[k as int].id == id@);
                    return Ok(());
                }
                k = k + 1;
            }
            Err(TargetError::UnknownClaim(id))
        },
        CiteRef::DocAnchor { path, anchor } => {
            let mut d: usize = 0;
            while d < corpus.documents.len()
                invariant
                    d <= corpus.documents@.len(),
                    cv == corpus@,
                    spec_parse_ref(target@) == CiteRefV::DocAnchor(path@, anchor@),
                    first_document(cv.documents, path@, 0) == first_document(cv.documents, path@, d as int),
                decreases corpus.documents@.len() - d,
            {
                assert(cv.documents[d as int] == corpus.documents@[d as int]@);
                if str_eq(corpus.documents[d].doc_path.as_str(), path.as_str()) {
                    let doc = &corpus.documents[d];
                    assert(first_document(cv.documents, path@, d as int) == Some(d as int));
                    let mut h: usize = 0;
                    while h < doc.headings.len()
                        invariant
                            h <= doc.headings@.len(),
                            cv == corpus@,
                            d < corpus.documents@.len(),
                            doc@ == cv.documents[d as int],
                            spec_parse_ref(target@) == CiteRefV::DocAnchor(path@, anchor@),
                            first_document(cv.documents, path@, 0) == Some(d as int),
                            forall|j: int| 0 <= j < h ==> !spec_anchor_matches((#[trigger] cv.documents[d as int].headings[j]).text, anchor@),
                        decreases doc.headings@.len() - h,
                    {
                        assert(cv.documents[d as int].headings[h as int] == doc.headings@[h as int]@);
                        if anchor_matches(doc.headings[h].text.as_str(), anchor.as_str()) {
                            assert(h < cv.documents[d as int].headings.len());
                            assert(spec_anchor_matches(cv.documents[d as int].headings[h as int].text, anchor@));
                            assert(doc_has_anchor(cv.documents[d as int], anchor@));
                            return Ok(());
                        }
                        h = h + 1;
                    }
                    return Err(TargetError::UnresolvedAnchor(owned(target)));
                }
                d = d + 1;
            }
            Err(TargetError::UnresolvedAnchor(owned(target)))
        },
    }
}

} // verus!
