use docket::extract::extract_document;
use docket::model::{Claim, Corpus};
use docket::signals::{compute, legacy_target_ambiguous, ClaimSignals, GraphSignals};

fn claims_from(sources: &[(&str, &str)]) -> Vec<Claim> {
    sources
        .iter()
        .flat_map(|(file, src)| extract_document(file, src).claims)
        .collect()
}

fn claim_src_kind(id: &str, field: &str, refs: &[&str]) -> String {
    format!(
        "### [{id}]\n\n```claim\nkind: constraint\nevaluator: test\n{field}: [{}]\n```\n",
        refs.join(", ")
    )
}

fn claim_src(id: &str, depends: &[&str]) -> String {
    claim_src_kind(id, "depends", depends)
}

fn corpus_with_claims(claims: Vec<Claim>) -> Corpus {
    Corpus {
        claims,
        documents: Vec::new(),
    }
}

fn find<'a>(signals: &'a GraphSignals, id: &str) -> &'a ClaimSignals {
    signals
        .claims
        .iter()
        .find(|c| c.id == id)
        .unwrap_or_else(|| panic!("no signals computed for claim {id:?}"))
}

#[test]
fn a_claim_nothing_cites_is_zero_inbound() {
    let a = claim_src("a", &[]);
    let corpus = corpus_with_claims(claims_from(&[("f-a.md", &a)]));
    let signals = compute(&corpus);
    assert_eq!(find(&signals, "a").in_degree, 0);
    let zero_inbound = signals.zero_inbound();
    let zero: Vec<&str> = zero_inbound.iter().map(|c| c.id.as_str()).collect();
    assert_eq!(zero, vec!["a"]);
}

#[test]
fn a_claim_with_a_citer_is_not_zero_inbound() {
    let a = claim_src("a", &[]);
    let b = claim_src("b", &["a"]);
    let corpus = corpus_with_claims(claims_from(&[("f-a.md", &a), ("f-b.md", &b)]));
    let signals = compute(&corpus);
    assert_eq!(find(&signals, "a").in_degree, 1);
    assert!(!signals.zero_inbound().iter().any(|c| c.id == "a"));
}

#[test]
fn a_because_edge_counts_toward_in_degree_same_as_depends() {
    let a = claim_src("a", &[]);
    let b = claim_src_kind("b", "because", &["a"]);
    let corpus = corpus_with_claims(claims_from(&[("f-a.md", &a), ("f-b.md", &b)]));
    let signals = compute(&corpus);
    assert_eq!(find(&signals, "a").in_degree, 1);
}

#[test]
fn out_degree_counts_both_depends_and_because() {
    let src = "### [x]\n\n```claim\nkind: constraint\nevaluator: test\n\
                depends: [a, b]\nbecause: [c]\n```\n";
    let corpus = corpus_with_claims(extract_document("f.md", src).claims);
    assert_eq!(find(&compute(&corpus), "x").out_degree, 3);
}

#[test]
fn a_document_anchor_citer_never_inflates_a_claims_in_degree() {
    let doc_citer =
        "### [x]\n\n```claim\nkind: constraint\nevaluator: test\ndepends: [some-doc#3]\n```\n";
    let named = claim_src("some-doc", &[]);
    let corpus = corpus_with_claims(claims_from(&[
        ("f-x.md", doc_citer),
        ("f-named.md", &named),
    ]));
    let signals = compute(&corpus);
    assert_eq!(find(&signals, "some-doc").in_degree, 0);
}

#[test]
fn review_surface_matches_blast_radius_size() {
    let a = claim_src("a", &[]);
    let b = claim_src("b", &["a"]);
    let c = claim_src("c", &["b"]);
    let corpus = corpus_with_claims(claims_from(&[
        ("f-a.md", &a),
        ("f-b.md", &b),
        ("f-c.md", &c),
    ]));
    let signals = compute(&corpus);
    assert_eq!(find(&signals, "a").review_surface, 2);
    assert_eq!(find(&signals, "b").review_surface, 1);
    assert_eq!(find(&signals, "c").review_surface, 0);
}

#[test]
fn a_zero_inbound_claim_always_has_zero_review_surface() {
    let a = claim_src("a", &[]);
    let corpus = corpus_with_claims(claims_from(&[("f-a.md", &a)]));
    let signals = compute(&corpus);
    let sig = find(&signals, "a");
    assert_eq!(sig.in_degree, 0);
    assert_eq!(sig.review_surface, 0);
}

#[test]
fn an_empty_corpus_yields_no_signals_and_no_zero_inbound() {
    let corpus = corpus_with_claims(vec![]);
    let signals = compute(&corpus);
    assert!(signals.claims.is_empty());
    assert_eq!(signals.zero_inbound().len(), 0);
}

#[test]
fn legacy_review_and_proof_are_target_ambiguous() {
    let a = "### [a]\n\n```claim\nkind: constraint\nevaluator: review\n```\n";
    let b = "### [b]\n\n```claim\nkind: constraint\nevaluator: proof\n```\n";
    let corpus = corpus_with_claims(claims_from(&[("f-a.md", a), ("f-b.md", b)]));
    let ambiguous = legacy_target_ambiguous(&corpus);
    let ids: Vec<&str> = ambiguous.iter().map(|c| c.id.as_str()).collect();
    assert_eq!(ids, vec!["a", "b"]);
    assert_eq!(ambiguous[0].evaluator, "review");
    assert_eq!(ambiguous[1].evaluator, "proof");
}

#[test]
fn an_ordinary_legacy_evaluator_is_never_target_ambiguous() {
    let a = claim_src("a", &[]);
    let corpus = corpus_with_claims(claims_from(&[("f-a.md", &a)]));
    assert!(legacy_target_ambiguous(&corpus).is_empty());
}

#[test]
fn a_new_shape_claim_naming_review_under_an_axis_is_never_target_ambiguous() {
    let src = "### [a]\n\n```claim\nkind: constraint\nverification:\n  design: review\n```\n";
    let corpus = corpus_with_claims(claims_from(&[("f-a.md", src)]));
    assert!(legacy_target_ambiguous(&corpus).is_empty());
}
