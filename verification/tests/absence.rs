use docket::absence::{find_stale_markers, search_sources, skip_string_literal, SourceHit};
use docket::extract::extract_document;
use docket::marker::Marker;
use docket::model::{Corpus, Line};

#[test]
fn skip_string_literal_treats_an_escaped_quote_as_not_closing() {
    assert_eq!(
        skip_string_literal(r#""a\"b" tail"#),
        Some(r#""a\"b""#.len())
    );
}

#[test]
fn skip_string_literal_runs_to_the_end_when_unterminated() {
    let rest = "\"never closes";
    assert_eq!(skip_string_literal(rest), Some(rest.len()));
}

#[test]
fn skip_string_literal_is_none_when_rest_does_not_open_a_string() {
    assert_eq!(skip_string_literal("not a string"), None);
}

fn corpus_with(file: &str, src: &str) -> Corpus {
    let result = extract_document(file, src);
    Corpus {
        claims: result.claims,
        documents: Vec::new(),
    }
}

fn marker_at(file: &str, id: &str, command: &str, line: usize) -> Marker {
    Marker {
        id: id.to_string(),
        command: Some(command.to_string()),
        file: file.to_string(),
        line: Line(line),
        exempt: false,
    }
}

#[test]
fn a_marker_whose_literal_is_still_in_the_claims_prose_is_not_stale() {
    let corpus = corpus_with(
        "docs/specs/x.md",
        "### [x]\n\nThere is no `Retry-After` header.\n\n```claim\nkind: constraint\nevaluator: absent\n```\n",
    );
    let markers = vec![marker_at("docs/specs/x.md", "x", "Retry-After", 3)];
    assert!(find_stale_markers(&corpus, &markers).is_empty());
}

#[test]
fn a_marker_whose_literal_the_prose_no_longer_mentions_is_stale() {
    let corpus = corpus_with(
        "docs/specs/x.md",
        "### [x]\n\nThe old note about it is gone now.\n\n```claim\nkind: constraint\nevaluator: absent\n```\n",
    );
    let markers = vec![marker_at("docs/specs/x.md", "x", "Retry-After", 3)];
    let stale = find_stale_markers(&corpus, &markers);
    assert_eq!(stale.len(), 1, "{stale:?}");
    assert_eq!(stale[0].literal, "Retry-After");
    assert_eq!(stale[0].id, "x");
}

#[test]
fn a_marker_in_a_different_file_from_its_claim_is_not_checked() {
    let corpus = corpus_with(
        "docs/specs/x.md",
        "### [x]\n\nThere is no `Retry-After` header.\n\n```claim\nkind: constraint\nevaluator: absent\n```\n",
    );
    let markers = vec![marker_at("src/lib.rs", "x", "Retry-After", 1)];
    assert!(find_stale_markers(&corpus, &markers).is_empty());
}

#[test]
fn a_non_absent_claim_is_never_checked_for_staleness() {
    let corpus = corpus_with(
        "docs/specs/x.md",
        "### [x]\n\nNo backtick code span mentions the marker's literal here.\n\n```claim\nkind: constraint\nevaluator: test\n```\n",
    );
    let markers = vec![marker_at("docs/specs/x.md", "x", "cargo test x", 3)];
    assert!(find_stale_markers(&corpus, &markers).is_empty());
}

#[test]
fn a_bare_marker_on_an_absent_claim_is_never_stale() {
    let corpus = corpus_with(
        "docs/specs/x.md",
        "### [x]\n\nThere is no `Retry-After` header.\n\n```claim\nkind: constraint\nevaluator: absent\n```\n",
    );
    let markers = vec![Marker {
        id: "x".to_string(),
        command: None,
        file: "docs/specs/x.md".to_string(),
        line: Line(3),
        exempt: false,
    }];
    assert!(find_stale_markers(&corpus, &markers).is_empty());
}

#[test]
fn a_literal_appearing_only_inside_a_sub_heading_does_not_suppress_staleness() {
    let corpus = corpus_with(
        "docs/specs/x.md",
        "### [x]\n\nThe old note about it is gone now.\n\n#### `Retry-After` (historical)\n\nSome detail.\n\n```claim\nkind: constraint\nevaluator: absent\n```\n",
    );
    let markers = vec![marker_at("docs/specs/x.md", "x", "Retry-After", 3)];
    let stale = find_stale_markers(&corpus, &markers);
    assert_eq!(stale.len(), 1, "{stale:?}");
    assert_eq!(stale[0].literal, "Retry-After");
}

/// The files of a tree, searched as the command line searches them: each
/// file that is searched at all, hits ordered by file then line.
fn find_literal(files: &[(&str, &str)], literal: &str) -> Vec<SourceHit> {
    let read: Vec<(String, String, String)> = files
        .iter()
        .map(|(relative, contents)| {
            let name = relative.rsplit('/').next().unwrap();
            let extension = match name.rfind('.') {
                Some(i) if i > 0 => name[i + 1..].to_ascii_lowercase(),
                _ => String::new(),
            };
            (relative.to_string(), extension, contents.to_string())
        })
        .collect();
    search_sources(&read, literal)
}

#[test]
fn a_literal_present_in_real_source_is_found() {
    let hits = find_literal(&[("src/lib.rs", "let header = \"Retry-After\";\n")], "Retry-After");
    assert_eq!(hits.len(), 1);
    assert_eq!(hits[0].file, "src/lib.rs");
    assert_eq!(hits[0].line, Line(1));
}

#[test]
fn a_literal_absent_from_the_whole_tree_reports_no_hits() {
    assert!(find_literal(&[("src/lib.rs", "let header = \"Content-Length\";\n")], "Retry-After").is_empty());
}

#[test]
fn documentation_never_counts_as_a_hit() {
    assert!(find_literal(&[("docs/specs/x.md", "There is no `Retry-After` header on any response.\n")], "Retry-After").is_empty());
}

#[test]
fn a_test_directory_is_excluded_from_the_search() {
    let files = [("tests/integration.rs", "\"Retry-After\"\n"), ("src/other/test/fixture.rs", "\"Retry-After\"\n")];
    assert!(find_literal(&files, "Retry-After").is_empty());
}

#[test]
fn a_real_module_merely_named_tests_is_also_excluded_a_named_residual() {
    assert!(find_literal(&[("src/tests/scheduler.rs", "\"Retry-After\"\n")], "Retry-After").is_empty());
}

#[test]
fn a_line_comment_hit_does_not_count() {
    assert!(find_literal(&[("src/lib.rs", "// TODO: no Retry-After header yet\n")], "Retry-After").is_empty());
}

#[test]
fn a_block_comment_hit_spanning_lines_does_not_count() {
    let files = [("src/lib.rs", "/* removed:\nlet h = \"Retry-After\";\n*/\nfn ok() {}\n")];
    assert!(find_literal(&files, "Retry-After").is_empty());
}

#[test]
fn real_code_after_a_block_comment_closes_is_still_searched() {
    let hits = find_literal(&[("src/lib.rs", "/* old note */ let h = \"Retry-After\";\n")], "Retry-After");
    assert_eq!(hits.len(), 1, "{hits:?}");
}

#[test]
fn a_hash_leader_is_a_comment_in_python_but_not_in_rust() {
    assert_eq!(find_literal(&[("src/lib.rs", "#[error(\"Retry-After missing\")]\n")], "Retry-After missing").len(), 1);
    assert!(find_literal(&[("scripts/note.py", "# Retry-After was removed\n")], "Retry-After").is_empty());
}

#[test]
fn an_unrecognized_extension_is_searched_unstripped() {
    assert_eq!(find_literal(&[("notes.xyz", "# Retry-After, mentioned in passing\n")], "Retry-After").len(), 1);
}

#[test]
fn a_comment_leader_inside_a_string_literal_is_still_searched() {
    let hits = find_literal(&[("src/lib.rs", "let s = \"// Retry-After\";\n")], "Retry-After");
    assert_eq!(hits.len(), 1, "{hits:?}");
}

#[test]
fn a_block_comment_opener_inside_a_string_does_not_open_a_phantom_block() {
    let hits = find_literal(&[("src/lib.rs", "let comment_marker = \"/*\";\nlet real = \"Retry-After\";\n")], "Retry-After");
    assert_eq!(hits.len(), 1, "{hits:?}");
    assert_eq!(hits[0].line, Line(2));
}

#[test]
fn a_brace_inside_a_test_items_string_does_not_swallow_following_real_code() {
    let files = [(
        "src/lib.rs",
        "#[test]\nfn t() {\n    let s = \"{\";\n    assert!(true);\n}\n\npub fn error_message() -> &'static str {\n    \"unexpected } here - Retry-After\"\n}\n",
    )];
    let hits = find_literal(&files, "Retry-After");
    assert_eq!(hits.len(), 1, "{hits:?}");
    assert_eq!(hits[0].line, Line(8));
}

#[test]
fn a_nix_block_comment_hit_does_not_count() {
    assert!(find_literal(&[("pkg.nix", "/* removed:\n\"Retry-After\"\n*/\n{ }\n")], "Retry-After").is_empty());
}

#[test]
fn a_sql_block_comment_hit_does_not_count() {
    assert!(find_literal(&[("q.sql", "/* removed:\n'Retry-After'\n*/\nSELECT 1;\n")], "Retry-After").is_empty());
}

#[test]
fn a_haskell_block_comment_hit_does_not_count() {
    assert!(find_literal(&[("M.hs", "{- removed:\n\"Retry-After\"\n-}\nmain = pure ()\n")], "Retry-After").is_empty());
}

#[test]
fn a_lua_block_comment_hit_does_not_count() {
    assert!(find_literal(&[("script.lua", "--[[ removed:\n\"Retry-After\"\n]]\nprint(1)\n")], "Retry-After").is_empty());
}

#[test]
fn an_alloy_block_comment_hit_does_not_count() {
    assert!(find_literal(&[("model.als", "/* removed:\n\"Retry-After\"\n*/\nsig S {}\n")], "Retry-After").is_empty());
}

#[test]
fn a_cfg_test_module_is_excluded_even_though_it_sits_in_src() {
    let files = [(
        "src/lib.rs",
        "fn real() {}\n\n#[cfg(test)]\nmod tests {\n    #[test]\n    fn old() {\n        assert_eq!(\"Retry-After\", header());\n    }\n}\n",
    )];
    assert!(find_literal(&files, "Retry-After").is_empty());
}

#[test]
fn a_standalone_hash_test_function_is_excluded_without_a_cfg_test_module() {
    let files = [("src/lib.rs", "fn real() {}\n\n#[test]\nfn old() {\n    let x = \"Retry-After\";\n}\n")];
    assert!(find_literal(&files, "Retry-After").is_empty());
}

#[test]
fn real_code_after_a_stripped_test_module_is_still_searched() {
    let files = [("src/lib.rs", "#[cfg(test)]\nmod tests {\n    fn old() {}\n}\n\nlet h = \"Retry-After\";\n")];
    let hits = find_literal(&files, "Retry-After");
    assert_eq!(hits.len(), 1, "{hits:?}");
}

#[test]
fn a_literal_the_source_genuinely_splits_across_a_line_break_is_not_found() {
    let files = [("src/lib.rs", "pub const MSG: &str = \"Retry-After \\\n    header\";\n")];
    assert!(find_literal(&files, "Retry-After header").is_empty());
}

#[test]
fn a_hit_after_a_multi_byte_comment_reports_the_correct_line_number() {
    let files = [("src/lib.rs", "// 日本語のコメント\nfn ok() {}\nlet h = \"Retry-After\";\n")];
    let hits = find_literal(&files, "Retry-After");
    assert_eq!(hits.len(), 1, "{hits:?}");
    assert_eq!(hits[0].line, Line(3));
}

#[test]
fn multiple_hits_across_files_are_all_reported() {
    let hits = find_literal(&[("src/b.rs", "\"Retry-After\"\n"), ("src/a.rs", "\"Retry-After\"\n")], "Retry-After");
    assert_eq!(hits.len(), 2, "{hits:?}");
    assert_eq!(hits[0].file, "src/a.rs");
}

#[test]
fn search_sources_orders_hits_by_file_then_line_and_skips_unsearched_files() {
    let files = vec![
        ("src/z.rs".to_string(), "rs".to_string(), "a\nLIT\nLIT\n".to_string()),
        ("docs/a.md".to_string(), "md".to_string(), "LIT\n".to_string()),
        ("tests/t.rs".to_string(), "rs".to_string(), "LIT\n".to_string()),
        ("src/a.py".to_string(), "py".to_string(), "# LIT\nx = 'LIT'\n".to_string()),
    ];
    let hits = search_sources(&files, "LIT");
    let got: Vec<(&str, usize)> = hits.iter().map(|h| (h.file.as_str(), h.line.0)).collect();
    assert_eq!(got, vec![("src/a.py", 2), ("src/z.rs", 2), ("src/z.rs", 3)]);
}
