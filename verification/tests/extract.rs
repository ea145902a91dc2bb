use docket::extract::{bracket_kebab_id, extract_document, malformed_bracket_id, scan_interstitial_chunk, ExtractResult, InterstitialStep};
use docket::model::{CiteRef, Line};

fn ids(res: &ExtractResult) -> Vec<&str> {
    res.claims.iter().map(|c| c.id.as_str()).collect()
}

fn keywords(res: &ExtractResult) -> Vec<&str> {
    res.normative_occurrences
        .iter()
        .map(|o| o.keyword)
        .collect()
}

fn malformed_ids(res: &ExtractResult) -> Vec<&str> {
    res.malformed_ids.iter().map(|m| m.id.as_str()).collect()
}

#[test]
fn extracts_a_simple_claim() {
    let src = "### [lock-groundness]\n\nEvery lock value MUST be ground.\n\n```claim\nkind: constraint\nevaluator: property-test\ndepends: [docs/models/composition-model#6]\n```\n";
    let res = extract_document("docs/specs/lock.md", src);
    assert_eq!(ids(&res), vec!["lock-groundness"]);
    let claim = &res.claims[0];
    assert_eq!(claim.raw.kind.as_deref(), Some("constraint"));
    assert_eq!(claim.raw.evaluator.as_deref(), Some("property-test"));
    assert_eq!(
        claim.depends,
        vec![CiteRef::DocAnchor {
            path: "docs/models/composition-model".into(),
            anchor: "6".into()
        }]
    );
    assert!(claim.because.is_empty());
    assert!(res.orphan_claims.is_empty());
}

#[test]
fn extracts_a_because_entry_separately_from_depends() {
    let src = "### [x]\n\n```claim\nkind: constraint\nevaluator: test\ndepends: [d#1]\nbecause: [b#2]\n```\n";
    let res = extract_document("docs/specs/x.md", src);
    let claim = &res.claims[0];
    assert_eq!(
        claim.depends,
        vec![CiteRef::DocAnchor {
            path: "d".into(),
            anchor: "1".into()
        }]
    );
    assert_eq!(
        claim.because,
        vec![CiteRef::DocAnchor {
            path: "b".into(),
            anchor: "2".into()
        }]
    );
}

#[test]
fn claim_block_with_no_preceding_id_heading_is_orphan() {
    let src = "## Notes\n\n```claim\nkind: constraint\n```\n";
    let res = extract_document("docs/specs/x.md", src);
    assert!(res.claims.is_empty());
    assert_eq!(res.orphan_claims.len(), 1);
    assert_eq!(res.orphan_claims[0].file, "docs/specs/x.md");
}

#[test]
fn claim_block_at_top_of_file_with_no_heading_at_all_is_orphan() {
    let src = "```claim\nkind: constraint\n```\n";
    let res = extract_document("docs/specs/x.md", src);
    assert!(res.claims.is_empty());
    assert_eq!(res.orphan_claims.len(), 1);
}

#[test]
fn nested_headings_find_the_nearest_bracket_kebab_ancestor() {
    let src = "## [outer-id]\n\nsome prose\n\n#### Notes\n\n```claim\nkind: requirement\n```\n";
    let res = extract_document("docs/architecture/a.md", src);
    assert_eq!(ids(&res), vec!["outer-id"]);
}

#[test]
fn deeper_id_heading_wins_over_a_shallower_one() {
    let src = "## [outer-id]\n\n### [inner-id]\n\n```claim\nkind: requirement\n```\n";
    let res = extract_document("docs/architecture/a.md", src);
    assert_eq!(ids(&res), vec!["inner-id"]);
}

#[test]
fn a_claim_fence_nested_inside_a_wider_fence_is_not_extracted() {
    let src = "### [x]\n\n````markdown\n```claim\nkind: constraint\n```\n````\n\n```claim\nkind: invariant\nevaluator: test\n```\n";
    let res = extract_document("docs/specs/x.md", src);
    assert_eq!(ids(&res), vec!["x"]);
    assert_eq!(res.claims[0].raw.kind.as_deref(), Some("invariant"));
}

#[test]
fn prose_link_outside_the_corpus_is_captured_as_a_raw_target_not_dropped_as_external() {
    let src = "### [x]\n\nSee [unrelated](../not-in-corpus.md) and [the web](https://example.com).\n\n```claim\nkind: constraint\n```\n";
    let res = extract_document("docs/specs/x.md", src);
    assert_eq!(res.claims[0].prose_links, vec!["../not-in-corpus.md"]);
}

#[test]
fn prose_link_scope_stops_at_the_next_same_level_heading() {
    let src = "### [a]\n\n[link-a](target-a)\n\n### [b]\n\n[link-b](target-b)\n\n```claim\nkind: constraint\n```\n";
    let res = extract_document("docs/specs/x.md", src);
    let claim_b = res.claims.iter().find(|c| c.id == "b").unwrap();
    assert_eq!(claim_b.prose_links, vec!["target-b"]);
}

#[test]
fn prose_code_captures_inline_code_spans_in_the_claims_scope() {
    let src = "### [x]\n\nThere is no `Retry-After` header on any response.\n\n```claim\nkind: constraint\nevaluator: absent\n```\n";
    let res = extract_document("docs/specs/x.md", src);
    assert_eq!(res.claims[0].prose_code, vec!["Retry-After"]);
}

#[test]
fn prose_code_scope_stops_at_the_next_same_level_heading() {
    let src = "### [a]\n\n`code-a`\n\n### [b]\n\n`code-b`\n\n```claim\nkind: constraint\n```\n";
    let res = extract_document("docs/specs/x.md", src);
    let claim_b = res.claims.iter().find(|c| c.id == "b").unwrap();
    assert_eq!(claim_b.prose_code, vec!["code-b"]);
}

#[test]
fn prose_code_excludes_a_code_span_living_inside_a_sub_heading() {
    let src = "### [x]\n\nThe old note about it is gone now.\n\n#### `Retry-After` (historical)\n\nSome detail.\n\n```claim\nkind: constraint\nevaluator: absent\n```\n";
    let res = extract_document("docs/specs/x.md", src);
    assert!(
        res.claims[0].prose_code.is_empty(),
        "{:?}",
        res.claims[0].prose_code
    );
}

#[test]
fn unknown_field_is_preserved_raw_for_the_nickel_contract_to_reject() {
    let src = "### [x]\n\n```claim\nkind: constraint\ntypo_field: oops\n```\n";
    let res = extract_document("docs/specs/x.md", src);
    assert!(res.claims[0].raw.yaml.contains("typo_field"));
}

#[test]
fn line_numbers_point_at_the_heading_and_the_fence() {
    let src = "line1\n\n### [x]\nline4\n\n```claim\nkind: constraint\n```\n";
    let res = extract_document("docs/specs/x.md", src);
    let claim = &res.claims[0];
    assert_eq!(claim.heading_line, Line(3));
    assert_eq!(claim.block_line, Line(6));
}

#[test]
fn headings_are_extracted_ready_for_anchor_matching() {
    let src = "## 6. The fact-set: the substrate's only state\n";
    let res = extract_document("docs/models/composition-model.md", src);
    assert_eq!(
        res.headings[0].text,
        "6. The fact-set: the substrate's only state"
    );
    assert!(docket::model::anchor_matches(&res.headings[0].text, "6"));
    assert!(!docket::model::anchor_matches(&res.headings[0].text, "60"));
}

#[test]
fn extracted_headings_carry_a_real_github_slug() {
    let src = "## 6. The fact-set: the substrate's only state\n";
    let res = extract_document("docs/models/composition-model.md", src);
    assert_eq!(
        res.headings[0].slug,
        "6-the-fact-set-the-substrates-only-state"
    );
}

#[test]
fn repeated_headings_in_one_document_get_deduplicated_slugs() {
    let src = "## Overview\n\ntext\n\n## Overview\n\nmore text\n";
    let res = extract_document("docs/guides/a.md", src);
    assert_eq!(res.headings.len(), 2);
    assert_eq!(res.headings[0].slug, "overview");
    assert_eq!(res.headings[1].slug, "overview-1");
}

#[test]
fn an_inline_code_span_in_prose_becomes_a_code_reference_candidate() {
    let src = "See `.ledger/2026-01-01-notes.md` for background.\n";
    let res = extract_document("docs/guides/a.md", src);
    assert_eq!(res.code_references.len(), 1);
    assert_eq!(res.code_references[0].dest, ".ledger/2026-01-01-notes.md");
    assert_eq!(res.code_references[0].line, Line(1));
}

#[test]
fn a_code_span_inside_a_heading_still_becomes_a_code_reference() {
    let src = "## See `.ledger/2026-01-01-notes.md`\n";
    let res = extract_document("docs/guides/a.md", src);
    assert_eq!(res.code_references.len(), 1);
    assert_eq!(res.code_references[0].dest, ".ledger/2026-01-01-notes.md");
}

#[test]
fn an_external_url_inline_code_span_is_not_a_code_reference() {
    let src = "See `https://example.com/notes` for background.\n";
    let res = extract_document("docs/guides/a.md", src);
    assert!(res.code_references.is_empty());
}

#[test]
fn an_ordinary_non_path_inline_code_span_is_still_captured_here() {
    let src = "Run `cargo test` first.\n";
    let res = extract_document("docs/guides/a.md", src);
    assert_eq!(res.code_references.len(), 1);
    assert_eq!(res.code_references[0].dest, "cargo test");
}

#[test]
fn bracket_kebab_id_rejects_non_kebab_and_non_bracket_text() {
    assert_eq!(
        bracket_kebab_id("[lock-groundness]"),
        Some("lock-groundness".to_string())
    );
    assert_eq!(bracket_kebab_id("[Lock-Groundness]"), None);
    assert_eq!(bracket_kebab_id("[lock_groundness]"), None);
    assert_eq!(bracket_kebab_id("lock-groundness"), None);
    assert_eq!(bracket_kebab_id("[]"), None);
}

#[test]
fn a_bare_own_voice_keyword_is_captured_with_its_line() {
    let src = "# Decision\n\nThis MUST be treated as final.\n";
    let res = extract_document("docs/adr/x.md", src);
    assert_eq!(keywords(&res), vec!["MUST"]);
    assert_eq!(res.normative_occurrences[0].file, "docs/adr/x.md");
    assert_eq!(res.normative_occurrences[0].line, Line(3));
}

#[test]
fn lowercase_or_mixed_case_is_not_a_keyword() {
    let src = "# Decision\n\nWe must, and we really Must, keep going.\n";
    let res = extract_document("docs/adr/x.md", src);
    assert!(keywords(&res).is_empty());
}

#[test]
fn must_not_is_one_compound_occurrence_not_two() {
    let src = "# Decision\n\nThis MUST NOT be reopened.\n";
    let res = extract_document("docs/adr/x.md", src);
    assert_eq!(keywords(&res), vec!["MUST NOT"]);
}

#[test]
fn should_not_and_shall_not_also_compound() {
    let src = "# Decision\n\nA SHOULD NOT b, and c SHALL NOT d.\n";
    let res = extract_document("docs/adr/x.md", src);
    assert_eq!(keywords(&res), vec!["SHOULD NOT", "SHALL NOT"]);
}

#[test]
fn a_negatable_keyword_without_a_following_not_reports_standalone() {
    let src = "# Decision\n\nThis MUST hold, and that is final.\n";
    let res = extract_document("docs/adr/x.md", src);
    assert_eq!(keywords(&res), vec!["MUST"]);
}

#[test]
fn every_rfc2119_keyword_is_detected() {
    let src = "# D\n\nMUST, MUST NOT, SHOULD, SHOULD NOT, SHALL, SHALL NOT, REQUIRED, RECOMMENDED, MAY, OPTIONAL.\n";
    let res = extract_document("docs/adr/x.md", src);
    assert_eq!(
        keywords(&res),
        vec![
            "MUST",
            "MUST NOT",
            "SHOULD",
            "SHOULD NOT",
            "SHALL",
            "SHALL NOT",
            "REQUIRED",
            "RECOMMENDED",
            "MAY",
            "OPTIONAL",
        ]
    );
}

#[test]
fn a_keyword_inside_a_block_quote_is_exempt_at_any_depth() {
    let src =
        "# Decision\n\n> The proposal said it MUST retry.\n>\n> > Nested: it also MUST log.\n";
    let res = extract_document("docs/adr/x.md", src);
    assert!(
        keywords(&res).is_empty(),
        "{:#?}",
        res.normative_occurrences
    );
}

#[test]
fn a_keyword_inside_an_inline_code_span_is_exempt() {
    let src = "# Decision\n\nThe token `MUST` is discussed, not asserted, here.\n";
    let res = extract_document("docs/adr/x.md", src);
    assert!(
        keywords(&res).is_empty(),
        "{:#?}",
        res.normative_occurrences
    );
}

#[test]
fn a_keyword_inside_a_fenced_code_block_is_exempt() {
    let src = "# Decision\n\n```text\nMUST\n```\n";
    let res = extract_document("docs/adr/x.md", src);
    assert!(
        keywords(&res).is_empty(),
        "{:#?}",
        res.normative_occurrences
    );
}

#[test]
fn a_keyword_inside_a_claim_blocks_own_yaml_is_exempt() {
    let src = "### [x]\n\n```claim\nkind: constraint\nevaluator: test\n# MUST not appear here anyway, but if it did:\n```\n";
    let res = extract_document("docs/specs/x.md", src);
    assert!(
        keywords(&res).is_empty(),
        "{:#?}",
        res.normative_occurrences
    );
}

#[test]
fn a_keyword_in_a_heading_counts_as_own_voice() {
    let src = "# You MUST configure this first\n";
    let res = extract_document("docs/adr/x.md", src);
    assert_eq!(keywords(&res), vec!["MUST"]);
}

#[test]
fn a_quoted_keyword_and_a_coded_keyword_coexist_with_a_real_own_voice_one() {
    let src = "# Decision\n\n> The old rule said it MUST retry.\n\nWe reject that; note `MUST` above is quoted, not asserted. The new rule\nSHALL retry once.\n";
    let res = extract_document("docs/adr/x.md", src);
    assert_eq!(keywords(&res), vec!["SHALL"]);
}

#[test]
fn extracts_a_bold_form_claim_with_a_direct_colon() {
    let src = "**[sigil-required]**: An input string MUST be treated as\ncontaining an alias.\n\n```claim\nkind: constraint\nevaluator: test\n```\n";
    let res = extract_document("docs/specs/x.md", src);
    assert_eq!(ids(&res), vec!["sigil-required"]);
    assert!(res.orphan_claims.is_empty(), "{:#?}", res.orphan_claims);
}

#[test]
fn extracts_a_bold_form_claim_with_a_parenthetical_before_the_colon() {
    let src = "**[eos-scheduler-frozen-stability]** (P8): Once an EP\ntransitions, its scope MUST NOT change.\n\n```claim\nkind: constraint\nevaluator: test\n```\n";
    let res = extract_document("docs/specs/x.md", src);
    assert_eq!(ids(&res), vec!["eos-scheduler-frozen-stability"]);

    let src_prime = "**[eos-scheduler-bounded-window]** (P9′): When a ready EP\nhas a feasible worker, it MUST be dispatched.\n\n```claim\nkind: constraint\nevaluator: test\n```\n";
    let res_prime = extract_document("docs/specs/x.md", src_prime);
    assert_eq!(ids(&res_prime), vec!["eos-scheduler-bounded-window"]);
}

#[test]
fn bold_form_ordinary_bold_text_without_brackets_is_not_a_definition() {
    let src = "**Note**: this is emphasis, not an id definition.\n\n```claim\nkind: constraint\nevaluator: test\n```\n";
    let res = extract_document("docs/specs/x.md", src);
    assert!(res.claims.is_empty());
    assert_eq!(res.orphan_claims.len(), 1);
}

#[test]
fn bold_form_mid_sentence_citation_of_a_real_id_is_not_a_second_definition() {
    let src = "**[real-claim]**: The real definition.\n\n```claim\nkind: constraint\nevaluator: test\n```\n\nAs required by **[real-claim]** above, the caller MUST retry.\n";
    let res = extract_document("docs/specs/x.md", src);
    assert_eq!(ids(&res), vec!["real-claim"]);
}

#[test]
fn bold_form_line_start_bracket_with_no_adjacent_punctuation_is_not_a_definition() {
    let src = "**[not-yet-a-definition]** appears here but is not\nimmediately followed by punctuation.\n\n```claim\nkind: constraint\nevaluator: test\n```\n";
    let res = extract_document("docs/specs/x.md", src);
    assert!(res.claims.is_empty());
    assert_eq!(res.orphan_claims.len(), 1);
}

#[test]
fn bold_form_inside_a_list_item_is_not_line_start() {
    let src = "- **[no-unpublished-dependency]** MUST be enforced: atoms\n  with an unpublished dependency are rejected.\n\n```claim\nkind: constraint\nevaluator: test\n```\n";
    let res = extract_document("docs/specs/x.md", src);
    assert!(res.claims.is_empty());
    assert_eq!(res.orphan_claims.len(), 1);
}

#[test]
fn bold_form_prose_scope_stops_at_the_next_bold_form_definition() {
    let src = "**[a]**: first claim.\n\n[link-a](target-a)\n\n**[b]**: second claim.\n\n[link-b](target-b)\n\n```claim\nkind: constraint\nevaluator: test\n```\n";
    let res = extract_document("docs/specs/x.md", src);
    let claim_b = res.claims.iter().find(|c| c.id == "b").unwrap();
    assert_eq!(claim_b.prose_links, vec!["target-b"]);
}

#[test]
fn bold_form_prose_scope_stops_at_the_next_heading_of_any_level() {
    let src = "**[a]**: first claim.\n\n[link-a](target-a)\n\n#### Notes\n\n[link-b](target-b)\n\n```claim\nkind: constraint\nevaluator: test\n```\n";
    let res = extract_document("docs/specs/x.md", src);
    assert_eq!(ids(&res), vec!["a"]);
    assert_eq!(res.claims[0].prose_links, vec!["target-a"]);
}

#[test]
fn a_claim_block_after_a_bold_form_definition_and_intervening_prose_is_owned_by_it() {
    let src = "**[lock-groundness]**: Every lock value MUST be ground.\n\nSome elaborating prose in between.\n\n```claim\nkind: constraint\nevaluator: test\n```\n";
    let res = extract_document("docs/specs/lock.md", src);
    assert_eq!(ids(&res), vec!["lock-groundness"]);
}

#[test]
fn heading_form_and_bold_form_can_coexist_in_one_document() {
    let src = "### [heading-claim]\n\n```claim\nkind: constraint\nevaluator: test\n```\n\n**[bold-claim]**: A second claim, this time bold-form.\n\n```claim\nkind: constraint\nevaluator: test\n```\n";
    let res = extract_document("docs/specs/x.md", src);
    let mut got = ids(&res);
    got.sort_unstable();
    assert_eq!(got, vec!["bold-claim", "heading-claim"]);
}

#[test]
fn extracts_an_html_anchored_claim() {
    let src = "Some prose.\n\n<a id=\"html-claim\"></a>\nThe system MUST persist keyed data.\n\n[see also](target-a)\n\n```claim\nkind: requirement\nevaluator: test\n```\n";
    let res = extract_document("docs/specs/a.md", src);
    assert_eq!(ids(&res), vec!["html-claim"]);
    assert_eq!(res.claims[0].prose_links, vec!["target-a"]);
}

#[test]
fn an_html_anchor_can_sit_mid_paragraph() {
    let src = "Some lead-in text <a id=\"mid-para\"></a> and more prose after it.\n\n```claim\nkind: constraint\nevaluator: test\n```\n";
    let res = extract_document("docs/specs/a.md", src);
    assert_eq!(ids(&res), vec!["mid-para"]);
}

#[test]
fn an_html_anchor_immediately_before_the_claim_fence_still_resolves() {
    let src = "Some prose.\n\n<a id=\"right-before\"></a>\n```claim\nkind: constraint\nevaluator: test\n```\n";
    let res = extract_document("docs/specs/a.md", src);
    assert_eq!(ids(&res), vec!["right-before"]);
}

#[test]
fn an_html_anchors_prose_scope_stops_at_the_next_heading_of_any_level() {
    let src = "<a id=\"a\"></a>\n\n[link-a](target-a)\n\n#### Notes\n\n[link-b](target-b)\n\n```claim\nkind: constraint\nevaluator: test\n```\n";
    let res = extract_document("docs/specs/x.md", src);
    assert_eq!(ids(&res), vec!["a"]);
    assert_eq!(res.claims[0].prose_links, vec!["target-a"]);
}

#[test]
fn an_html_anchors_prose_scope_stops_at_the_next_bold_form_definition() {
    let src = "<a id=\"a\"></a>\n\n[link-a](target-a)\n\n```claim\nkind: constraint\nevaluator: test\n```\n\n**[b]**: second claim.\n\n[link-b](target-b)\n";
    let res = extract_document("docs/specs/x.md", src);
    assert_eq!(ids(&res), vec!["a"]);
    assert_eq!(res.claims[0].prose_links, vec!["target-a"]);
}

#[test]
fn a_bold_form_definitions_prose_scope_now_also_stops_at_the_next_html_anchor() {
    let src = "**[a]**: first claim.\n\n[link-a](target-a)\n\n```claim\nkind: constraint\nevaluator: test\n```\n\n<a id=\"b\"></a>\n\n[link-b](target-b)\n";
    let res = extract_document("docs/specs/x.md", src);
    assert_eq!(ids(&res), vec!["a"]);
    assert_eq!(res.claims[0].prose_links, vec!["target-a"]);
}

#[test]
fn an_html_anchor_with_no_claim_block_is_unregistered() {
    let src = "<a id=\"orphaned\"></a>\n\nNo block follows.\n";
    let res = extract_document("docs/specs/x.md", src);
    assert!(res.claims.is_empty());
    assert_eq!(res.unregistered_definitions.len(), 1);
    assert_eq!(res.unregistered_definitions[0].id, "orphaned");
}

#[test]
fn a_registered_html_anchor_is_not_reported_as_unregistered() {
    let src = "<a id=\"registered\"></a>\n\nhas a block.\n\n```claim\nkind: constraint\nevaluator: test\n```\n";
    let res = extract_document("docs/specs/x.md", src);
    assert!(res.unregistered_definitions.is_empty(), "{:#?}", res);
}

#[test]
fn an_anchor_tag_with_no_id_attribute_is_never_a_candidate() {
    let src = "See <a href=\"https://example.com\">this</a> for background.\n";
    let res = extract_document("docs/specs/x.md", src);
    assert!(res.unregistered_definitions.is_empty());
    assert!(res.malformed_ids.is_empty());
}

#[test]
fn an_empty_id_attribute_is_malformed_not_silently_skipped() {
    let src = "<a id=\"\"></a>\n\nSome prose.\n";
    let res = extract_document("docs/specs/x.md", src);
    assert_eq!(res.malformed_ids.len(), 1, "{:#?}", res.malformed_ids);
    assert_eq!(res.malformed_ids[0].id, "");
    assert!(res.unregistered_definitions.is_empty());
}

#[test]
fn a_non_kebab_id_attribute_is_malformed() {
    let src = "<a id=\"Not_Valid\"></a>\n\nSome prose.\n";
    let res = extract_document("docs/specs/x.md", src);
    assert_eq!(res.malformed_ids.len(), 1);
    assert_eq!(res.malformed_ids[0].id, "Not_Valid");
}

#[test]
fn an_unclosed_anchor_tag_is_silently_not_a_candidate() {
    let src = "<a id=\"never-closed\"> and then some prose that never closes it.\n";
    let res = extract_document("docs/specs/x.md", src);
    assert!(res.unregistered_definitions.is_empty());
    assert!(res.malformed_ids.is_empty());
}

#[test]
fn an_anchor_with_real_content_between_the_tags_is_not_a_candidate() {
    let src = "<a id=\"has-content\">some text</a>\n\nSome prose.\n";
    let res = extract_document("docs/specs/x.md", src);
    assert!(res.unregistered_definitions.is_empty());
    assert!(res.malformed_ids.is_empty());
}

#[test]
fn heading_bold_and_html_forms_can_all_coexist_in_one_document() {
    let src = "### [heading-claim]\n\n```claim\nkind: constraint\nevaluator: test\n```\n\n**[bold-claim]**: A second claim.\n\n```claim\nkind: constraint\nevaluator: test\n```\n\n<a id=\"html-claim\"></a>\n\nA third claim.\n\n```claim\nkind: constraint\nevaluator: test\n```\n";
    let res = extract_document("docs/specs/x.md", src);
    let mut got = ids(&res);
    got.sort_unstable();
    assert_eq!(got, vec!["bold-claim", "heading-claim", "html-claim"]);
}

#[test]
fn an_anchor_immediately_before_its_heading_inherits_the_headings_scope() {
    let src = "<a id=\"lock-sufficiency\"></a>\n#### Lock sufficiency\n\nThe lock MUST pin. [link](x.md)\n\n```claim\nkind: requirement\nevaluator: test\n```\n";
    let res = extract_document("docs/specs/a.md", src);
    assert_eq!(ids(&res), vec!["lock-sufficiency"]);
    assert_eq!(res.claims[0].prose_links, vec!["x.md".to_string()]);
}

#[test]
fn an_anchor_immediately_after_its_heading_also_inherits_the_headings_scope() {
    let src = "#### Lock sufficiency\n<a id=\"lock-sufficiency\"></a>\n\nThe lock MUST pin. [link](x.md)\n\n```claim\nkind: requirement\nevaluator: test\n```\n";
    let res = extract_document("docs/specs/a.md", src);
    assert_eq!(ids(&res), vec!["lock-sufficiency"]);
    assert_eq!(res.claims[0].prose_links, vec!["x.md".to_string()]);
}

#[test]
fn a_heading_adjacent_anchors_scope_survives_a_deeper_subheading() {
    let src = "<a id=\"parent\"></a>\n## Parent\n\n[outer](outer-target)\n\n### Child\n\n[inner](inner-target)\n\n```claim\nkind: requirement\nevaluator: test\n```\n";
    let res = extract_document("docs/specs/a.md", src);
    assert_eq!(ids(&res), vec!["parent"]);
    let mut links = res.claims[0].prose_links.clone();
    links.sort_unstable();
    assert_eq!(links, vec!["inner-target", "outer-target"]);
}

#[test]
fn a_heading_adjacent_anchor_does_not_widen_past_the_next_same_level_heading() {
    let src = "<a id=\"a\"></a>\n## A\n\n[link-a](target-a)\n\n```claim\nkind: requirement\nevaluator: test\n```\n\n## B\n\n[link-b](target-b)\n";
    let res = extract_document("docs/specs/a.md", src);
    assert_eq!(ids(&res), vec!["a"]);
    assert_eq!(res.claims[0].prose_links, vec!["target-a".to_string()]);
}

#[test]
fn a_free_standing_html_anchor_still_uses_the_inline_scope_rule() {
    let src = "Some lead-in prose.\n\n<a id=\"free-standing\"></a>\n\n[link-a](target-a)\n\n#### Notes\n\n[link-b](target-b)\n\n```claim\nkind: constraint\nevaluator: test\n```\n";
    let res = extract_document("docs/specs/a.md", src);
    assert_eq!(ids(&res), vec!["free-standing"]);
    assert_eq!(res.claims[0].prose_links, vec!["target-a".to_string()]);
}

#[test]
fn a_bold_form_definition_with_no_claim_block_is_unregistered() {
    let src = "**[unregistered-one]**: A definition nobody registered yet.\n";
    let res = extract_document("docs/specs/x.md", src);
    assert!(res.claims.is_empty());
    assert_eq!(res.unregistered_definitions.len(), 1);
    assert_eq!(res.unregistered_definitions[0].id, "unregistered-one");
    assert_eq!(res.unregistered_definitions[0].file, "docs/specs/x.md");
}

#[test]
fn a_heading_form_definition_with_no_claim_block_is_also_unregistered() {
    let src = "### [heading-only]\n\nNo block follows.\n";
    let res = extract_document("docs/specs/x.md", src);
    assert!(res.claims.is_empty());
    assert_eq!(res.unregistered_definitions.len(), 1);
    assert_eq!(res.unregistered_definitions[0].id, "heading-only");
}

#[test]
fn a_registered_bold_form_definition_is_not_reported_as_unregistered() {
    let src =
        "**[registered]**: has a block.\n\n```claim\nkind: constraint\nevaluator: test\n```\n";
    let res = extract_document("docs/specs/x.md", src);
    assert!(res.unregistered_definitions.is_empty(), "{:#?}", res);
}

#[test]
fn scan_interstitial_chunk_matches_the_direct_and_parenthetical_forms() {
    assert!(matches!(
        scan_interstitial_chunk(": text", 128),
        InterstitialStep::ResolvedAt(0)
    ));
    assert!(matches!(
        scan_interstitial_chunk(" (P8): text", 128),
        InterstitialStep::ResolvedAt(5)
    ));
}

#[test]
fn scan_interstitial_chunk_keeps_hunting_when_no_colon_yet_within_budget() {
    assert!(matches!(
        scan_interstitial_chunk(" text, no colon", 128),
        InterstitialStep::Continue
    ));
}

#[test]
fn scan_interstitial_chunk_fails_on_a_crossed_line_or_an_exhausted_budget() {
    assert!(matches!(
        scan_interstitial_chunk(" text\nmore: after a break", 128),
        InterstitialStep::Failed
    ));
    assert!(matches!(
        scan_interstitial_chunk(" text, no colon", 4),
        InterstitialStep::Failed
    ));
}

#[test]
fn extracts_a_bold_form_claim_with_an_italicized_revision_note() {
    let src = "**[lock-groundness]** _(amended 2026-07-14 — retitled\nfrom lock-nonzero)_: Every lock value MUST be ground.\n\n```claim\nkind: constraint\nevaluator: test\n```\n";
    let res = extract_document("docs/specs/x.md", src);
    assert_eq!(ids(&res), vec!["lock-groundness"]);
    assert!(res.orphan_claims.is_empty(), "{:#?}", res.orphan_claims);
}

#[test]
fn extracts_a_bold_form_claim_with_a_retired_or_superseded_note() {
    let src = "**[anchor-is-genesis]** _(retired 2026-07-08 — superseded by\nthe charter amendment)_: The former rule is retired.\n\n```claim\nkind: constraint\nevaluator: test\n```\n";
    let res = extract_document("docs/specs/x.md", src);
    assert_eq!(ids(&res), vec!["anchor-is-genesis"]);
}

#[test]
fn a_nested_bracket_id_inside_the_revision_note_does_not_confuse_the_wrapper_skip() {
    let src = "**[anchor-resolvable]** _(supersedes [anchor-discoverable],\n2026-07-08)_: Given a source, any party MUST verify.\n\n```claim\nkind: constraint\nevaluator: test\n```\n";
    let res = extract_document("docs/specs/x.md", src);
    assert_eq!(ids(&res), vec!["anchor-resolvable"]);
}

#[test]
fn the_two_already_supported_forms_still_work_alongside_the_italic_one() {
    let src = "**[direct]**: direct colon.\n\n```claim\nkind: constraint\nevaluator: test\n```\n\n**[paren]** (P8): plain parenthetical.\n\n```claim\nkind: constraint\nevaluator: test\n```\n\n**[italic]** _(amended 2026-07-14)_: italic revision note.\n\n```claim\nkind: constraint\nevaluator: test\n```\n";
    let res = extract_document("docs/specs/x.md", src);
    let mut got = ids(&res);
    got.sort_unstable();
    assert_eq!(got, vec!["direct", "italic", "paren"]);
    assert!(res.orphan_claims.is_empty(), "{:#?}", res.orphan_claims);
}

#[test]
fn malformed_bracket_id_pins_the_predicate_directly() {
    assert_eq!(
        malformed_bracket_id("[boundary-L1-concerns]").as_deref(),
        Some("boundary-L1-concerns")
    );
    assert_eq!(
        malformed_bracket_id("[daemon-discovery-vN]").as_deref(),
        Some("daemon-discovery-vN")
    );
    assert_eq!(
        malformed_bracket_id("[lock_groundness]").as_deref(),
        Some("lock_groundness")
    );
    assert_eq!(malformed_bracket_id("[v1.2]").as_deref(), Some("v1.2"));
    assert_eq!(malformed_bracket_id("[lock-groundness]").as_deref(), None);
    assert_eq!(malformed_bracket_id("lock-groundness").as_deref(), None);
    assert_eq!(malformed_bracket_id("[]").as_deref(), None);
    assert_eq!(malformed_bracket_id("[Note to reader]").as_deref(), None);
    assert_eq!(malformed_bracket_id("[trailing space ]").as_deref(), None);
}

#[test]
fn a_malformed_bold_form_id_is_reported_with_the_real_corpus_shape() {
    let src = "**[boundary-L1-concerns]**: L1 (atom) owns content\naddressing and lock verification.\n";
    let res = extract_document("docs/specs/x.md", src);
    assert_eq!(malformed_ids(&res), vec!["boundary-L1-concerns"]);
    assert!(res.claims.is_empty());
    assert!(res.unregistered_definitions.is_empty(), "{:#?}", res);
}

#[test]
fn a_malformed_bold_form_id_with_a_parenthetical_is_still_reported() {
    let src = "**[daemon-discovery-vN]** (P8): In future versions, ion\nMAY support additional discovery mechanisms.\n";
    let res = extract_document("docs/specs/x.md", src);
    assert_eq!(malformed_ids(&res), vec!["daemon-discovery-vN"]);
}

#[test]
fn a_malformed_heading_form_id_is_also_reported() {
    let src = "### [Boundary-L1]\n\nSome prose.\n";
    let res = extract_document("docs/specs/x.md", src);
    assert_eq!(malformed_ids(&res), vec!["Boundary-L1"]);
    assert!(res.claims.is_empty());
}

#[test]
fn a_malformed_id_leaves_its_claim_block_orphaned_not_silently_owned() {
    let src = "**[boundary-L1-concerns]**: L1 owns things.\n\n```claim\nkind: constraint\nevaluator: test\n```\n";
    let res = extract_document("docs/specs/x.md", src);
    assert!(res.claims.is_empty());
    assert_eq!(res.orphan_claims.len(), 1);
    assert_eq!(malformed_ids(&res), vec!["boundary-L1-concerns"]);
}

#[test]
fn an_empty_bracket_in_bold_form_position_is_not_reported() {
    let src = "**[]**: whatever this is.\n";
    let res = extract_document("docs/specs/x.md", src);
    assert!(malformed_ids(&res).is_empty(), "{:#?}", res.malformed_ids);
}

#[test]
fn a_multi_word_bracket_reads_as_prose_not_a_malformed_id() {
    let src = "**[Note to reader]**: this is prose, not an id.\n";
    let res = extract_document("docs/specs/x.md", src);
    assert!(malformed_ids(&res).is_empty(), "{:#?}", res.malformed_ids);
    assert!(res.claims.is_empty());
    assert_eq!(res.orphan_claims.len(), 0);
}

#[test]
fn ordinary_bold_text_without_brackets_still_reports_no_malformed_id() {
    let src = "**Note**: this is emphasis, not an id definition.\n\n```claim\nkind: constraint\nevaluator: test\n```\n";
    let res = extract_document("docs/specs/x.md", src);
    assert!(malformed_ids(&res).is_empty(), "{:#?}", res.malformed_ids);
}

#[test]
fn a_malformed_looking_bracket_not_line_start_is_not_reported() {
    let src = "**[boundary-L1-concerns]**: L1 owns things.\n\nAs discussed in **[boundary-L1-concerns]** above, the caller\nMUST retry.\n";
    let res = extract_document("docs/specs/x.md", src);
    assert_eq!(malformed_ids(&res), vec!["boundary-L1-concerns"]);
}

#[test]
fn a_malformed_looking_bracket_inside_a_list_item_is_not_reported() {
    let src = "- **[Boundary-L1]** MUST be enforced: things happen.\n";
    let res = extract_document("docs/specs/x.md", src);
    assert!(malformed_ids(&res).is_empty(), "{:#?}", res.malformed_ids);
}

#[test]
fn a_malformed_looking_bracket_with_no_adjacent_punctuation_is_not_reported() {
    let src =
        "**[Boundary-L1]** appears here but is not\nimmediately followed by punctuation.\n";
    let res = extract_document("docs/specs/x.md", src);
    assert!(malformed_ids(&res).is_empty(), "{:#?}", res.malformed_ids);
}

#[test]
fn a_heading_with_prose_around_a_malformed_bracket_is_not_reported() {
    let src = "## About [Boundary-L1] and other things\n";
    let res = extract_document("docs/specs/x.md", src);
    assert!(malformed_ids(&res).is_empty(), "{:#?}", res.malformed_ids);
}

#[test]
fn a_valid_kebab_id_is_never_also_reported_as_malformed() {
    let src = "### [heading-claim]\n\n```claim\nkind: constraint\nevaluator: test\n```\n\n**[bold-claim]**: A second claim, this time bold-form.\n\n```claim\nkind: constraint\nevaluator: test\n```\n\n**[unregistered-bold]**: no block follows.\n";
    let res = extract_document("docs/specs/x.md", src);
    assert!(res.malformed_ids.is_empty(), "{:#?}", res.malformed_ids);
}

#[test]
fn every_extracted_claim_and_unregistered_definition_has_a_kebab_case_id() {
    let src = "### [Not_Kebab]\n\n```claim\nkind: constraint\nevaluator: test\n```\n\n**[good-one]**: A claim.\n\n```claim\nkind: constraint\nevaluator: test\n```\n\n<a id=\"Bad Id\"></a>\n\n**[lonely-def]**: no block follows.\n\n<a id=\"also-lonely\"></a>\n";
    let res = extract_document("docs/specs/x.md", src);
    assert_eq!(ids(&res), vec!["good-one"]);
    let unregistered: Vec<&str> = res.unregistered_definitions.iter().map(|u| u.id.as_str()).collect();
    assert_eq!(unregistered, vec!["lonely-def", "also-lonely"]);
    for id in ids(&res).into_iter().chain(unregistered.into_iter()) {
        assert!(docket::extract::is_kebab_case(id));
    }
}

#[test]
fn every_claim_fence_becomes_one_claim_or_one_orphan_in_fence_order() {
    let src = "```claim\nkind: x\n```\n\n### [a]\n\n```claim\nkind: constraint\nevaluator: test\n```\n\n```rust\nfn f() {}\n```\n\n```claim\nkind: constraint\nevaluator: test\n```\n";
    let res = extract_document("docs/specs/x.md", src);
    let claim_lines: Vec<usize> = res.claims.iter().map(|c| c.block_line.0).collect();
    let orphan_lines: Vec<usize> = res.orphan_claims.iter().map(|o| o.line.0).collect();
    assert_eq!(orphan_lines, vec![1]);
    assert_eq!(claim_lines, vec![7, 16]);
}
