use docket::model::{anchor_matches, assign_heading_slugs, heading_slug, is_combining_mark, slug_of_lowercase, CiteRef};

#[test]
fn cite_ref_parses_bare_claim_id() {
    assert_eq!(
        CiteRef::parse("lock-groundness"),
        CiteRef::Claim("lock-groundness".into())
    );
}

#[test]
fn cite_ref_parses_document_anchor() {
    assert_eq!(
        CiteRef::parse("docs/models/composition-model#6"),
        CiteRef::DocAnchor {
            path: "docs/models/composition-model".into(),
            anchor: "6".into()
        }
    );
}

#[test]
fn cite_ref_display_round_trips() {
    assert_eq!(
        CiteRef::parse("lock-groundness").to_string(),
        "lock-groundness"
    );
    assert_eq!(
        CiteRef::parse("docs/models/composition-model#6").to_string(),
        "docs/models/composition-model#6"
    );
}

#[test]
fn anchor_matches_prefix_with_non_alphanumeric_boundary() {
    assert!(anchor_matches("6. The fact-set", "6"));
    assert!(anchor_matches("2.4 Identity discipline", "2.4"));
    assert!(anchor_matches("6", "6")); // end-of-string boundary
}

#[test]
fn anchor_matches_rejects_a_numeric_prefix_collision() {
    assert!(!anchor_matches("60. Something else", "6"));
}

#[test]
fn anchor_matches_rejects_non_prefix() {
    assert!(!anchor_matches("The fact-set", "6"));
}

#[test]
fn heading_slug_matches_a_real_numbered_heading() {
    assert_eq!(
        heading_slug("3. Composition merge is a partial commutative monoid"),
        "3-composition-merge-is-a-partial-commutative-monoid"
    );
}

#[test]
fn heading_slug_drops_a_period_without_a_separator() {
    assert_eq!(
        heading_slug("1.5 The two strata of intent"),
        "15-the-two-strata-of-intent"
    );
}

#[test]
fn heading_slug_drops_a_slash_without_a_separator() {
    assert_eq!(
        heading_slug("[sets] under the spine/cloud split (ADR-0009)"),
        "sets-under-the-spinecloud-split-adr-0009"
    );
}

#[test]
fn heading_slug_keeps_an_existing_hyphen_and_drops_a_colon() {
    assert_eq!(
        heading_slug("The cloud: a snapshot name for the fact-set"),
        "the-cloud-a-snapshot-name-for-the-fact-set"
    );
}

#[test]
fn heading_slug_folds_inline_code_and_brackets() {
    assert_eq!(
        heading_slug(
            "6. The store is a flat, content-addressed keyspace, with every index derived [acp-store]"
        ),
        "6-the-store-is-a-flat-content-addressed-keyspace-with-every-index-derived-acp-store"
    );
}

#[test]
fn heading_slug_strips_em_dashes_and_section_signs_without_a_separator() {
    assert_eq!(
        heading_slug("§1 — Layer Architecture"),
        "1--layer-architecture"
    );
}

#[test]
fn heading_slug_lowercases_and_keeps_underscore() {
    assert_eq!(
        heading_slug("`!Send` Threading_Model"),
        "send-threading_model"
    );
}

#[test]
fn heading_slug_keeps_an_nfd_composed_combining_accent() {
    let nfd_cafe = "Caf\u{65}\u{301} notes"; // "Café notes", NFD form
    assert_eq!(heading_slug(nfd_cafe), "caf\u{65}\u{301}-notes");
}

#[test]
fn heading_slug_keeps_hebrew_cantillation_marks() {
    let with_etnahta = "\u{5D0}\u{591}\u{5D1}"; // א ETNAHTA ב
    assert_eq!(heading_slug(with_etnahta), "\u{5D0}\u{591}\u{5D1}");
}

#[test]
fn is_combining_mark_is_false_for_an_ordinary_letter() {
    assert!(!is_combining_mark('e'));
    assert!(!is_combining_mark('5'));
}

#[test]
fn assign_heading_slugs_dedupes_in_document_order() {
    let texts = ["Foo", "Foo", "Foo", "Bar"];
    assert_eq!(
        assign_heading_slugs(&texts),
        vec!["foo", "foo-1", "foo-2", "bar"]
    );
}

#[test]
fn assign_heading_slugs_does_not_let_a_real_collision_race_a_generated_one() {
    let texts = ["Foo", "Foo 1", "Foo"];
    let slugs = assign_heading_slugs(&texts);
    assert_eq!(slugs[0], "foo");
    assert_eq!(slugs[1], "foo-1");
    assert_ne!(slugs[2], slugs[1]);
    assert_eq!(slugs[2], "foo-2");
}

#[test]
fn a_document_anchor_never_reads_as_a_claim_id() {
    let anchor = CiteRef::parse("docs/specs/lock#lock-groundness");
    assert!(matches!(anchor, CiteRef::DocAnchor { .. }));
    assert!(anchor.to_string().contains('#'));
    assert_ne!(anchor.to_string(), "lock-groundness");
    assert_eq!(CiteRef::parse("lock-groundness"), CiteRef::Claim("lock-groundness".into()));
}

#[test]
fn slug_of_lowercase_keeps_words_and_hyphens_and_drops_punctuation() {
    assert_eq!(slug_of_lowercase("6.2 the lock — file: a/b"), "62-the-lock--file-ab");
    let once = heading_slug("A  Title -- With: Stuff");
    assert_eq!(once, "a--title----with-stuff");
    assert_eq!(heading_slug(&once), once);
    assert_eq!(once.matches('-').count(), 7);
}
