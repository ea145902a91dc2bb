use docket::checks::{CheckReport, Diagnostic, RegisterResult, Severity};
use docket::corpus::{add_document, LoadedCorpus};
use docket::marker::Marker;
use docket::model::{Index, IndexClaim, Line};
use docket::rename::{
    apply_edits, diff_snapshots, plan_rename, same_snapshot, snapshot, substitute_link, substitute_snapshot,
    stage_rename, verify_rename, RenameError, RenameSite,
};
use docket::text::replace_text;

fn basic_corpus(file: &str, src: &str) -> LoadedCorpus {
    let mut loaded = LoadedCorpus::new();
    add_document(&mut loaded, file, "docs/**", src);
    loaded
}

fn no_sources(loaded: &LoadedCorpus) -> Vec<(String, String, Vec<RenameSite>)> {
    loaded
        .corpus
        .documents
        .iter()
        .map(|d| (d.file.clone(), String::new(), Vec::new()))
        .collect()
}

fn site_of(src: &str, needle: &str) -> RenameSite {
    let start = src.find(needle).expect("needle present");
    RenameSite { start, end: start + needle.len() }
}

#[test]
fn refuses_an_unknown_source_id() {
    let loaded = basic_corpus("docs/a.md", "### [real-id]\n\n```claim\nkind: constraint\nevaluator: test\n```\n");
    let err = plan_rename(&loaded, &Vec::new(), &no_sources(&loaded), "typo-id", "new-id").unwrap_err();
    assert!(matches!(err, RenameError::UnknownSourceId(id) if id == "typo-id"));
}

#[test]
fn refuses_a_malformed_target_id() {
    let loaded = basic_corpus("docs/a.md", "### [old-id]\n\n```claim\nkind: constraint\nevaluator: test\n```\n");
    let err = plan_rename(&loaded, &Vec::new(), &no_sources(&loaded), "old-id", "Not_Kebab").unwrap_err();
    assert!(matches!(err, RenameError::MalformedTargetId { .. }));
}

#[test]
fn refuses_a_target_id_that_already_exists() {
    let loaded = basic_corpus(
        "docs/a.md",
        "### [old-id]\n\n```claim\nkind: constraint\nevaluator: test\n```\n\n### [taken-id]\n\n```claim\nkind: constraint\nevaluator: test\n```\n",
    );
    let err = plan_rename(&loaded, &Vec::new(), &no_sources(&loaded), "old-id", "taken-id").unwrap_err();
    match err {
        RenameError::TargetAlreadyExists { new_id, file, line } => {
            assert_eq!(new_id, "taken-id");
            assert_eq!(file, "docs/a.md");
            assert!(line > 0);
        }
        other => panic!("expected TargetAlreadyExists, got {other:?}"),
    }
}

#[test]
fn refuses_a_target_id_that_exists_only_as_an_unregistered_definition() {
    let loaded = basic_corpus(
        "docs/a.md",
        "### [old-id]\n\n```claim\nkind: constraint\nevaluator: test\n```\n\n### [taken-id]\n\nNo claim block follows this one.\n",
    );
    let err = plan_rename(&loaded, &Vec::new(), &no_sources(&loaded), "old-id", "taken-id").unwrap_err();
    assert!(matches!(err, RenameError::TargetAlreadyExists { .. }));
}

#[test]
fn refuses_when_an_evaluator_marker_names_the_old_id() {
    let loaded = basic_corpus("docs/a.md", "### [old-id]\n\n```claim\nkind: constraint\nevaluator: test\n```\n");
    let markers = vec![
        Marker { id: "old-id".into(), command: Some("true".into()), file: "src/lib.rs".into(), line: Line(3), exempt: false },
        Marker { id: "other".into(), command: None, file: "src/lib.rs".into(), line: Line(5), exempt: false },
        Marker { id: "old-id".into(), command: None, file: "tests/t.rs".into(), line: Line(12), exempt: false },
    ];
    let err = plan_rename(&loaded, &markers, &no_sources(&loaded), "old-id", "new-id").unwrap_err();
    match err {
        RenameError::MarkerSitesRemain { old_id, new_id, count, sites } => {
            assert_eq!(old_id, "old-id");
            assert_eq!(new_id, "new-id");
            assert_eq!(count, 2);
            assert_eq!(sites, "  src/lib.rs:3\n  tests/t.rs:12");
        }
        other => panic!("expected MarkerSitesRemain, got {other:?}"),
    }
}

#[test]
fn plans_the_rewrite_of_every_document_with_sites() {
    let a = "### [old-id]\n\nSee [it](old-id).\n\n```claim\nkind: constraint\nevaluator: test\n```\n";
    let b = "### [b]\n\n```claim\nkind: constraint\nevaluator: test\ndepends: [old-id]\n```\n";
    let mut loaded = LoadedCorpus::new();
    add_document(&mut loaded, "docs/b.md", "docs/**", b);
    add_document(&mut loaded, "docs/a.md", "docs/**", a);
    let link_start = a.find("(old-id)").unwrap() + 1;
    let sources = vec![
        ("docs/b.md".to_string(), b.to_string(), vec![site_of(b, "old-id")]),
        (
            "docs/a.md".to_string(),
            a.to_string(),
            vec![RenameSite { start: link_start, end: link_start + 6 }, site_of(a, "old-id")],
        ),
    ];
    let plan = plan_rename(&loaded, &Vec::new(), &sources, "old-id", "new-id").expect("plan");
    assert_eq!(plan.old_id, "old-id");
    assert_eq!(plan.new_id, "new-id");
    let files: Vec<&str> = plan.changes.iter().map(|(f, _)| f.as_str()).collect();
    assert_eq!(files, vec!["docs/a.md", "docs/b.md"]);
    assert_eq!(plan.total_edits(), 3);
    assert_eq!(plan.changes[0].1.edit_count, 2);
    assert_eq!(plan.changes[0].1.old_content, a);
    assert_eq!(plan.changes[0].1.new_content, a.replace("old-id", "new-id"));
    assert_eq!(plan.changes[1].1.new_content, b.replace("old-id", "new-id"));
}

#[test]
fn a_plan_that_finds_no_site_at_all_is_a_defect() {
    let loaded = basic_corpus("docs/a.md", "### [old-id]\n\n```claim\nkind: constraint\nevaluator: test\n```\n");
    let err = plan_rename(&loaded, &Vec::new(), &no_sources(&loaded), "old-id", "new-id").unwrap_err();
    match err {
        RenameError::Internal(m) => assert_eq!(
            m,
            "\"old-id\" resolved to a claim but no rename site was found anywhere in the corpus"
        ),
        other => panic!("expected Internal, got {other:?}"),
    }
}

#[test]
fn apply_edits_replaces_only_the_sites() {
    let src = "ab old-id cd old-id";
    let sites = vec![RenameSite { start: 13, end: 19 }, RenameSite { start: 3, end: 9 }];
    let out = apply_edits(src, &sites, "old-id", "brand-new-id").unwrap();
    assert_eq!(out, "ab brand-new-id cd brand-new-id");
    let none = apply_edits(src, &Vec::new(), "old-id", "x").unwrap();
    assert_eq!(none, src);
}

#[test]
fn apply_edits_keeps_multibyte_text_around_the_sites() {
    let src = "é [old-id] ü";
    let site = site_of(src, "old-id");
    let out = apply_edits(src, &vec![site], "old-id", "nové-id").unwrap();
    assert_eq!(out, "é [nové-id] ü");
}

#[test]
fn apply_edits_to_the_same_id_changes_nothing() {
    let src = "### [same]\n\n[x](same)\n";
    let sites = vec![site_of(src, "same"), RenameSite { start: 16, end: 20 }];
    assert_eq!(&src[16..20], "same");
    assert_eq!(apply_edits(src, &sites, "same", "same").unwrap(), src);
}

#[test]
fn apply_edits_refuses_overlapping_sites() {
    let src = "old-id old-id";
    let sites = vec![RenameSite { start: 5, end: 12 }, RenameSite { start: 0, end: 6 }];
    match apply_edits(src, &sites, "old-id", "new-id").unwrap_err() {
        RenameError::Internal(m) => assert_eq!(m, "overlapping rename sites at bytes 0..6 and 5..12"),
        other => panic!("expected Internal, got {other:?}"),
    }
}

#[test]
fn apply_edits_refuses_a_span_that_is_not_a_byte_range_of_the_text() {
    let src = "é old-id";
    let sites = vec![RenameSite { start: 1, end: 3 }];
    match apply_edits(src, &sites, "old-id", "new-id").unwrap_err() {
        RenameError::Internal(m) => {
            assert_eq!(m, "rename site 1..3 is not a valid byte range in this document")
        }
        other => panic!("expected Internal, got {other:?}"),
    }
    let past_end = vec![RenameSite { start: 4, end: 40 }];
    assert!(matches!(apply_edits(src, &past_end, "old-id", "new-id"), Err(RenameError::Internal(_))));
}

#[test]
fn apply_edits_refuses_a_span_holding_another_text() {
    let src = "the old-id";
    let sites = vec![RenameSite { start: 0, end: 3 }];
    match apply_edits(src, &sites, "old-id", "new-id").unwrap_err() {
        RenameError::Internal(m) => assert_eq!(
            m,
            format!("rename site 0..3 contains {:?}, not {:?} \u{2014} refusing to guess", "the", "old-id")
        ),
        other => panic!("expected Internal, got {other:?}"),
    }
}

#[test]
fn substitute_link_rewrites_a_bare_id_or_a_fragment() {
    assert_eq!(substitute_link("old-id", "old-id", "new-id"), "new-id");
    assert_eq!(substitute_link("docs/b.md#old-id", "old-id", "new-id"), "docs/b.md#new-id");
    assert_eq!(substitute_link("a#b#old-id", "old-id", "new-id"), "a#b#new-id");
    assert_eq!(substitute_link("old-id#section", "old-id", "new-id"), "old-id#section");
    assert_eq!(substitute_link("docs/old-id.md", "old-id", "new-id"), "docs/old-id.md");
}

#[test]
fn replace_text_agrees_with_str_replace() {
    let cases = [
        ("duplicate id: old-id", "old-id", "new-id"),
        ("aaaa", "aa", "b"),
        ("ab", "", "x"),
        ("", "", "x"),
        ("", "a", "x"),
        ("no match here", "zz", "y"),
        ("ééé", "é", "e"),
    ];
    for (s, p, q) in cases {
        assert_eq!(replace_text(s, p, q), s.replace(p, q), "{s:?} {p:?} {q:?}");
    }
}

fn row(file: &str, line: usize, depends: &[&str]) -> IndexClaim {
    IndexClaim {
        file: file.into(),
        line,
        kind: "constraint".into(),
        evaluator: "test".into(),
        depends: depends.iter().map(|s| s.to_string()).collect(),
        because: vec![],
    }
}

fn diag(check: &str, severity: Severity, file: &str, line: usize, message: &str) -> Diagnostic {
    Diagnostic { check: check.into(), severity, file: file.into(), line, message: message.into() }
}

fn register(index: Index, diagnostics: Vec<Diagnostic>) -> RegisterResult {
    RegisterResult { index, report: CheckReport { diagnostics } }
}

fn sample_index(id: &str, cited: &str) -> Index {
    let mut index = Index::new();
    index.insert_claim(id.to_string(), row("docs/a.md", 5, &[]));
    index.insert_claim("b".to_string(), row("docs/b.md", 3, &[cited]));
    index
}

#[test]
fn snapshot_sorts_diagnostics_by_check_file_line_and_message() {
    let loaded = LoadedCorpus::new();
    let result = register(
        Index::new(),
        vec![
            diag("orphan-claim", Severity::Warn, "b.md", 1, "z"),
            diag("C1", Severity::Fail, "b.md", 9, "m"),
            diag("C1", Severity::Fail, "a.md", 9, "m"),
            diag("C1", Severity::Fail, "a.md", 2, "y"),
            diag("C1", Severity::Fail, "a.md", 2, "x"),
        ],
    );
    let snap = snapshot(&loaded, &result);
    let order: Vec<(&str, &str, usize, &str)> = snap
        .diagnostics
        .iter()
        .map(|d| (d.check.as_str(), d.file.as_str(), d.line, d.message.as_str()))
        .collect();
    assert_eq!(
        order,
        vec![
            ("C1", "a.md", 2, "x"),
            ("C1", "a.md", 2, "y"),
            ("C1", "a.md", 9, "m"),
            ("C1", "b.md", 9, "m"),
            ("orphan-claim", "b.md", 1, "z"),
        ]
    );
}

#[test]
fn snapshot_keeps_each_claims_prose() {
    let loaded = basic_corpus(
        "docs/a.md",
        "### [old-id]\n\nSee [it](old-id) and `code`.\n\n```claim\nkind: constraint\nevaluator: test\n```\n",
    );
    let snap = snapshot(&loaded, &register(Index::new(), vec![]));
    assert_eq!(snap.claim_prose.len(), 1);
    assert_eq!(snap.claim_prose[0].0, "old-id");
    assert_eq!(snap.claim_prose[0].1.links, vec!["old-id"]);
    assert_eq!(snap.claim_prose[0].1.code, vec!["code"]);
}

#[test]
fn a_substituted_snapshot_matches_the_renamed_corpus() {
    let before_loaded = basic_corpus(
        "docs/a.md",
        "### [old-id]\n\nSee [it](old-id).\n\n```claim\nkind: constraint\nevaluator: test\n```\n",
    );
    let after_loaded = basic_corpus(
        "docs/a.md",
        "### [new-id]\n\nSee [it](new-id).\n\n```claim\nkind: constraint\nevaluator: test\n```\n",
    );
    let before = snapshot(
        &before_loaded,
        &register(sample_index("old-id", "old-id"), vec![diag("C5", Severity::Warn, "docs/a.md", 1, "duplicate id: old-id")]),
    );
    let after = snapshot(
        &after_loaded,
        &register(sample_index("new-id", "new-id"), vec![diag("C5", Severity::Warn, "docs/a.md", 1, "duplicate id: new-id")]),
    );
    let expected = substitute_snapshot(&before, "old-id", "new-id");
    assert!(same_snapshot(&expected, &after));
    let keys: Vec<&str> = expected.index.claims.iter().map(|(k, _)| k.as_str()).collect();
    assert_eq!(keys, vec!["b", "new-id"]);
    assert!(verify_rename(&before, &after, "old-id", "new-id").is_ok());
    assert_eq!(diff_snapshots(&expected, &after), "");
}

#[test]
fn renaming_to_the_same_id_leaves_a_snapshot_as_it_is() {
    let loaded = basic_corpus(
        "docs/a.md",
        "### [same]\n\nSee [it](docs/a.md#same).\n\n```claim\nkind: constraint\nevaluator: test\n```\n",
    );
    let snap = snapshot(
        &loaded,
        &register(sample_index("same", "same"), vec![diag("C2", Severity::Fail, "docs/a.md", 4, "same is cited")]),
    );
    assert!(same_snapshot(&substitute_snapshot(&snap, "same", "same"), &snap));
}

#[test]
fn a_diverged_rename_is_refused_with_every_difference() {
    let loaded = LoadedCorpus::new();
    let before = snapshot(&loaded, &register(sample_index("old-id", "old-id"), vec![]));
    let after_diags = vec![diag("C2", Severity::Fail, "docs/b.md", 3, "dangling \"old-id\"")];
    let after = snapshot(&loaded, &register(sample_index("new-id", "old-id"), after_diags.clone()));
    let expected = substitute_snapshot(&before, "old-id", "new-id");
    let text = diff_snapshots(&expected, &after);
    let expected_row = row("docs/b.md", 3, &["new-id"]);
    let actual_row = row("docs/b.md", 3, &["old-id"]);
    let wanted = format!(
        "  index: claim \"b\" diverged:\n    expected {:?}\n    actual   {:?}\n  diagnostics diverged:\n    expected {:#?}\n    actual   {:#?}",
        expected_row,
        actual_row,
        Vec::<Diagnostic>::new(),
        after_diags
    );
    assert_eq!(text, wanted);
    match verify_rename(&before, &after, "old-id", "new-id").unwrap_err() {
        RenameError::InvariantDiverged(m) => assert_eq!(m, wanted),
        other => panic!("expected InvariantDiverged, got {other:?}"),
    }
}

#[test]
fn a_diff_names_missing_and_unexpected_claims_and_prose() {
    let a = basic_corpus("docs/a.md", "### [x]\n\n[l](y)\n\n```claim\nkind: constraint\nevaluator: test\n```\n");
    let b = basic_corpus("docs/a.md", "### [z]\n\n[l](y)\n\n```claim\nkind: constraint\nevaluator: test\n```\n");
    let mut ia = Index::new();
    ia.insert_claim("x".into(), row("docs/a.md", 5, &[]));
    let mut ib = Index::new();
    ib.insert_claim("z".into(), row("docs/a.md", 5, &[]));
    let sa = snapshot(&a, &register(ia, vec![]));
    let sb = snapshot(&b, &register(ib, vec![]));
    assert_eq!(
        diff_snapshots(&sa, &sb),
        "  index: claim \"x\" expected but missing after rename\n  index: claim \"z\" present after rename but not expected\n  claim \"x\" prose expected but missing after rename\n  claim \"z\" prose present after rename but not expected"
    );
    let c = basic_corpus("docs/a.md", "### [x]\n\n[other](q) `k`\n\n```claim\nkind: constraint\nevaluator: test\n```\n");
    let mut ic = Index::new();
    ic.insert_claim("x".into(), row("docs/a.md", 5, &[]));
    let sc = snapshot(&c, &register(ic, vec![]));
    assert_eq!(
        diff_snapshots(&sa, &sc),
        format!(
            "  claim \"x\" prose diverged:\n    expected links={:?} code={:?}\n    actual   links={:?} code={:?}",
            vec!["y"],
            Vec::<String>::new(),
            vec!["q"],
            vec!["k"]
        )
    );
}

#[test]
fn a_staged_rename_stands_only_when_the_renamed_corpus_reads_as_the_substituted_original() {
    let a = "### [old-id]\n\nSee [it](old-id).\n\n```claim\nkind: constraint\nevaluator: test\n```\n";
    let before_loaded = basic_corpus("docs/a.md", a);
    let link_start = a.find("(old-id)").unwrap() + 1;
    let sites = vec![site_of(a, "old-id"), RenameSite { start: link_start, end: link_start + 6 }];
    let sources = vec![("docs/a.md".to_string(), a.to_string(), sites)];
    let plan = plan_rename(&before_loaded, &Vec::new(), &sources, "old-id", "new-id").expect("plan");
    let after_loaded = basic_corpus("docs/a.md", &plan.changes[0].1.new_content);
    let before = snapshot(&before_loaded, &register(sample_index("old-id", "old-id"), vec![]));
    let good_after = snapshot(&after_loaded, &register(sample_index("new-id", "new-id"), vec![]));
    let staged = stage_rename(plan.clone(), &before, &good_after).expect("staged");
    assert_eq!(staged.new_id, "new-id");
    assert_eq!(staged.changes.len(), 1);
    let bad_after = snapshot(&after_loaded, &register(sample_index("new-id", "old-id"), vec![]));
    match stage_rename(plan, &before, &bad_after).unwrap_err() {
        RenameError::InvariantDiverged(m) => assert!(m.contains("index: claim \"b\" diverged")),
        other => panic!("expected InvariantDiverged, got {other:?}"),
    }
}
