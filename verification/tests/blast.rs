use docket::blast::{blast_radius, Cycle};
use docket::extract::extract_document;
use docket::model::{Claim, Corpus};

fn claims_from(sources: &[(&str, &str)]) -> Vec<Claim> {
    sources
        .iter()
        .flat_map(|(file, src)| extract_document(file, src).claims)
        .collect()
}

fn claim_src_kind(id: &str, field: &str, refs: &[&str]) -> String {
    format!(
        "### [{id}]\n\n```claim\nkind: constraint\nevaluator: test\n{field}: [{}]\n```\n",
        refs.join(", ")
    )
}

fn claim_src(id: &str, depends: &[&str]) -> String {
    claim_src_kind(id, "depends", depends)
}

fn corpus_with_claims(claims: Vec<Claim>) -> Corpus {
    Corpus {
        claims,
        documents: Vec::new(),
    }
}

#[test]
fn finds_direct_and_transitive_citers() {
    let a = claim_src("a", &[]);
    let b = claim_src("b", &["a"]);
    let c = claim_src("c", &["b"]);
    let corpus = corpus_with_claims(claims_from(&[
        ("f-a.md", &a),
        ("f-b.md", &b),
        ("f-c.md", &c),
    ]));

    let result = blast_radius(&corpus, "a");
    let ids: Vec<&str> = result.entries.iter().map(|e| e.claim.as_str()).collect();
    assert_eq!(ids, vec!["b", "c"]);
    assert!(result.cycles.is_empty());
}

#[test]
fn a_diamond_is_not_a_cycle() {
    let a = claim_src("a", &[]);
    let b = claim_src("b", &["a"]);
    let c = claim_src("c", &["a"]);
    let d = claim_src("d", &["b", "c"]);
    let corpus = corpus_with_claims(claims_from(&[
        ("f-a.md", &a),
        ("f-b.md", &b),
        ("f-c.md", &c),
        ("f-d.md", &d),
    ]));

    let result = blast_radius(&corpus, "a");
    let ids: Vec<&str> = result.entries.iter().map(|e| e.claim.as_str()).collect();
    assert_eq!(ids.iter().filter(|id| **id == "d").count(), 1);
    assert!(
        result.cycles.is_empty(),
        "a diamond is not a cycle: {:?}",
        result.cycles
    );
}

#[test]
fn a_real_cycle_is_reported_and_not_followed_forever() {
    let a = claim_src("a", &[]);
    let b = claim_src("b", &["a", "c"]);
    let c = claim_src("c", &["b"]);
    let corpus = corpus_with_claims(claims_from(&[
        ("f-a.md", &a),
        ("f-b.md", &b),
        ("f-c.md", &c),
    ]));

    let result = blast_radius(&corpus, "a");
    let ids: Vec<&str> = result.entries.iter().map(|e| e.claim.as_str()).collect();
    assert_eq!(ids, vec!["b", "c"]);
    assert_eq!(
        result.cycles,
        vec![Cycle {
            claim: "b".to_string(),
            ancestor: "c".to_string()
        }]
    );
}

#[test]
fn an_unknown_start_id_yields_an_empty_result() {
    let corpus = corpus_with_claims(claims_from(&[("f.md", &claim_src("a", &[]))]));
    let result = blast_radius(&corpus, "does-not-exist");
    assert!(result.entries.is_empty());
    assert!(result.cycles.is_empty());
}

#[test]
fn a_document_anchor_cite_creates_a_reverse_edge() {
    let src =
        "### [x]\n\n```claim\nkind: constraint\nevaluator: test\ndepends: [some-doc#3]\n```\n";
    let corpus = corpus_with_claims(extract_document("f.md", src).claims);

    let result = blast_radius(&corpus, "some-doc#3");
    let ids: Vec<&str> = result.entries.iter().map(|e| e.claim.as_str()).collect();
    assert_eq!(ids, vec!["x"]);
}

#[test]
fn a_claim_id_argument_still_ignores_an_unrelated_document_anchor() {
    let src =
        "### [x]\n\n```claim\nkind: constraint\nevaluator: test\ndepends: [some-doc#3]\n```\n";
    let corpus = corpus_with_claims(extract_document("f.md", src).claims);
    let result = blast_radius(&corpus, "some-doc");
    assert!(result.entries.is_empty());
}

#[test]
fn the_walk_continues_past_a_document_anchor_citer_via_its_claim_id() {
    let x =
        "### [x]\n\n```claim\nkind: constraint\nevaluator: test\ndepends: [some-doc#3]\n```\n";
    let y = claim_src("y", &["x"]);
    let corpus = corpus_with_claims(claims_from(&[("f-x.md", x), ("f-y.md", &y)]));

    let result = blast_radius(&corpus, "some-doc#3");
    let ids: Vec<&str> = result.entries.iter().map(|e| e.claim.as_str()).collect();
    assert_eq!(ids, vec!["x", "y"]);
    assert!(result.cycles.is_empty());
}

#[test]
fn finds_citers_via_because_edges_too() {
    let a = claim_src("a", &[]);
    let b = claim_src_kind("b", "because", &["a"]);
    let corpus = corpus_with_claims(claims_from(&[("f-a.md", &a), ("f-b.md", &b)]));

    let result = blast_radius(&corpus, "a");
    let ids: Vec<&str> = result.entries.iter().map(|e| e.claim.as_str()).collect();
    assert_eq!(ids, vec!["b"]);
}

#[test]
fn exchanging_depends_and_because_changes_no_blast_radius() {
    let sources = [
        ("f-a.md", "### [a]\n\n```claim\nkind: constraint\nevaluator: test\n```\n".to_string()),
        ("f-b.md", "### [b]\n\n```claim\nkind: constraint\nevaluator: test\ndepends: [a]\nbecause: [d]\n```\n".to_string()),
        ("f-c.md", "### [c]\n\n```claim\nkind: constraint\nevaluator: test\nbecause: [b]\n```\n".to_string()),
        ("f-d.md", "### [d]\n\n```claim\nkind: constraint\nevaluator: test\ndepends: [c]\n```\n".to_string()),
    ];
    let corpus = corpus_with_claims(claims_from(&sources.iter().map(|(f, s)| (*f, s.as_str())).collect::<Vec<_>>()));
    let mut swapped = corpus.clone();
    for c in &mut swapped.claims {
        std::mem::swap(&mut c.depends, &mut c.because);
    }
    for start in ["a", "b", "c", "d"] {
        let x = blast_radius(&corpus, start);
        let y = blast_radius(&swapped, start);
        let ids = |r: &docket::blast::BlastResult| r.entries.iter().map(|e| e.claim.clone()).collect::<Vec<_>>();
        assert_eq!(ids(&x), ids(&y), "{start}");
        assert_eq!(x.cycles, y.cycles, "{start}");
    }
    let from_a: Vec<String> = blast_radius(&corpus, "a").entries.iter().map(|e| e.claim.clone()).collect();
    assert_eq!(from_a, vec!["b", "c", "d"]);
}
