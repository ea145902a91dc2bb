use docket::extract::extract_document;
use docket::marker::Marker;
use docket::model::{Corpus, Line};
use docket::absence::{search_sources, SourceHit};
use docket::run::{
    detect_vacuity, marker_outcome, plan_run, settle, settle_absence, search_outcome, CommandRun, Outcome, RunError, RunPlan, RunResult,
};

fn corpus_with(src: &str) -> Corpus {
    let result = extract_document("docs/specs/x.md", src);
    Corpus { claims: result.claims, documents: Vec::new() }
}

fn marker(id: &str, command: &str) -> Marker {
    Marker { id: id.to_string(), command: Some(command.to_string()), file: "src/lib.rs".to_string(), line: Line(1), exempt: false }
}

fn exempt_marker(id: &str, command: &str) -> Marker {
    Marker { exempt: true, ..marker(id, command) }
}

fn bare_marker(id: &str) -> Marker {
    Marker { id: id.to_string(), command: None, file: "src/lib.rs".to_string(), line: Line(1), exempt: false }
}

/// What `sh -c` gives for the handful of commands these tests use.
fn shell(command: &str) -> CommandRun {
    let (body, fails) = match command.strip_suffix("; exit 1") {
        Some(b) => (b, true),
        None => (command, false),
    };
    let stdout = if let Some(rest) = body.strip_prefix("printf '%s' '") {
        rest.strip_suffix('\'').unwrap().to_string()
    } else if let Some(rest) = body.strip_prefix("echo '") {
        format!("{}\n", rest.strip_suffix('\'').unwrap())
    } else {
        String::new()
    };
    let ok = !fails && body != "false";
    CommandRun { success: ok, exit_code: Some(if ok { 0 } else { 1 }), stdout, stderr: String::new() }
}

/// The project's source files, as (relative path, contents).
const SOURCE_TREE: &[(&str, &str)] = &[
    ("src/lib.rs", "fn handler() {\n    // Retry-After used to be set here\n    respond(429);\n}\n"),
    ("src/http.py", "def send():\n    headers['X-Legacy'] = 1\n"),
    ("docs/notes.md", "Retry-After and X-Legacy are both mentioned here.\n"),
];

/// Where `literal` occurs in `SOURCE_TREE`'s searched files.
fn search_tree(literal: &str) -> Vec<SourceHit> {
    let files: Vec<(String, String, String)> = SOURCE_TREE
        .iter()
        .map(|(path, contents)| (path.to_string(), path.rsplit('.').next().unwrap().to_string(), contents.to_string()))
        .collect();
    search_sources(&files, literal)
}

/// Plan the run, perform each command (or search each literal), and
/// settle the claim.
fn run_claim(corpus: &Corpus, id: &str, markers: &[Marker]) -> Result<RunResult, RunError> {
    match plan_run(corpus, id, &markers.to_vec())? {
        RunPlan::Done(result) => Ok(result),
        RunPlan::Search { claim_id, evaluator, markers } => {
            let hits: Vec<Vec<SourceHit>> = markers.iter().map(|m| search_tree(m.command.as_deref().unwrap())).collect();
            Ok(settle_absence(claim_id, evaluator, markers, &hits))
        }
        RunPlan::Execute { claim_id, evaluator, markers } => {
            let outcomes: Vec<_> = markers
                .into_iter()
                .map(|m| {
                    let ran = m.command.as_deref().map(shell);
                    marker_outcome(m, ran)
                })
                .collect();
            let outcome = settle(&outcomes);
            Ok(RunResult { claim_id, evaluator, outcome, markers: outcomes })
        }
    }
}

const CARGO_ZERO_COLLECTED: &str =
    "test result: ok. 0 passed; 0 failed; 0 ignored; 0 measured; 3 filtered out; finished in 0.00s\n";
const CARGO_ONLY_IGNORED: &str =
    "test result: ok. 0 passed; 0 failed; 1 ignored; 0 measured; 2 filtered out; finished in 0.00s\n";

#[test]
fn a_marker_whose_command_exits_zero_passes() {
    let corpus = corpus_with("### [x]\n\n```claim\nkind: constraint\nevaluator: test\n```\n");
    let markers = vec![marker("x", "true")];
    let result = run_claim(&corpus, "x", &markers).unwrap();
    assert_eq!(result.outcome, Outcome::Pass);
    assert_eq!(result.evaluator, "test");
    assert_eq!(result.markers.len(), 1);
    assert!(result.markers[0].success);
}

#[test]
fn a_marker_whose_command_exits_nonzero_fails() {
    let corpus = corpus_with("### [x]\n\n```claim\nkind: constraint\nevaluator: test\n```\n");
    let markers = vec![marker("x", "false")];
    let result = run_claim(&corpus, "x", &markers).unwrap();
    assert_eq!(result.outcome, Outcome::Fail);
    assert!(!result.markers[0].success);
    assert_eq!(result.markers[0].exit_code, Some(1));
}

#[test]
fn no_matching_marker_is_absent_not_fail() {
    let corpus = corpus_with("### [x]\n\n```claim\nkind: constraint\nevaluator: test\n```\n");
    let result = run_claim(&corpus, "x", &[]).unwrap();
    assert_eq!(result.outcome, Outcome::Absent);
    assert!(result.markers.is_empty());
}

#[test]
fn evaluator_none_never_consults_markers() {
    let corpus = corpus_with("### [x]\n\n```claim\nkind: requirement\nevaluator: none\n```\n");
    let markers = vec![marker("x", "false")];
    let result = run_claim(&corpus, "x", &markers).unwrap();
    assert_eq!(result.outcome, Outcome::Unimplemented);
    assert!(result.markers.is_empty());
}

#[test]
fn evaluator_review_never_consults_markers() {
    let corpus = corpus_with("### [x]\n\n```claim\nkind: requirement\nevaluator: review\n```\n");
    let markers = vec![marker("x", "false")];
    let result = run_claim(&corpus, "x", &markers).unwrap();
    assert_eq!(result.outcome, Outcome::Review);
    assert!(result.markers.is_empty());
}

#[test]
fn evaluator_review_is_distinct_from_none() {
    let corpus = corpus_with("### [x]\n\n```claim\nkind: requirement\nevaluator: review\n```\n");
    let result = run_claim(&corpus, "x", &[]).unwrap();
    assert_eq!(result.outcome, Outcome::Review);
    assert_ne!(result.outcome, Outcome::Unimplemented);
    assert_eq!(result.evaluator, "review");
}

#[test]
fn an_unknown_claim_id_is_a_run_error() {
    let corpus = corpus_with("### [x]\n\n```claim\nkind: constraint\nevaluator: test\n```\n");
    let err = run_claim(&corpus, "nonexistent", &[]).unwrap_err();
    assert!(matches!(err, RunError::UnknownClaim(id) if id == "nonexistent"));
}

#[test]
fn all_markers_must_pass_for_the_claim_to_pass() {
    let corpus = corpus_with("### [x]\n\n```claim\nkind: constraint\nevaluator: test\n```\n");
    let markers = vec![marker("x", "true"), marker("x", "false")];
    let result = run_claim(&corpus, "x", &markers).unwrap();
    assert_eq!(result.outcome, Outcome::Fail);
    assert_eq!(result.markers.len(), 2);
}

#[test]
fn a_marker_for_a_different_claim_id_does_not_match() {
    let corpus = corpus_with("### [x]\n\n```claim\nkind: constraint\nevaluator: test\n```\n");
    let markers = vec![marker("y", "true")];
    let result = run_claim(&corpus, "x", &markers).unwrap();
    assert_eq!(result.outcome, Outcome::Absent);
}

#[test]
fn a_marker_naming_a_nonexistent_test_reports_vacuous_not_pass() {
    let corpus = corpus_with("### [x]\n\n```claim\nkind: constraint\nevaluator: test\n```\n");
    let markers = vec![marker("x", &format!("printf '%s' '{CARGO_ZERO_COLLECTED}'"))];
    let result = run_claim(&corpus, "x", &markers).unwrap();
    assert_eq!(result.outcome, Outcome::Vacuous);
    assert!(result.markers[0].success);
    assert_eq!(
        result.markers[0].vacuous,
        Some("cargo test collected nothing to run (or only #[ignore]d tests)")
    );
}

#[test]
fn a_marker_naming_an_ignored_test_reports_vacuous_not_pass() {
    let corpus = corpus_with("### [x]\n\n```claim\nkind: constraint\nevaluator: test\n```\n");
    let markers = vec![marker("x", &format!("printf '%s' '{CARGO_ONLY_IGNORED}'"))];
    let result = run_claim(&corpus, "x", &markers).unwrap();
    assert_eq!(result.outcome, Outcome::Vacuous);
    assert!(result.markers[0].success);
    assert!(result.markers[0].vacuous.is_some());
}

#[test]
fn a_failing_marker_is_fail_even_if_its_own_output_would_also_read_as_vacuous() {
    let corpus = corpus_with("### [x]\n\n```claim\nkind: constraint\nevaluator: test\n```\n");
    let markers = vec![marker("x", &format!("printf '%s' '{CARGO_ZERO_COLLECTED}'; exit 1"))];
    let result = run_claim(&corpus, "x", &markers).unwrap();
    assert_eq!(result.outcome, Outcome::Fail);
    assert_eq!(result.markers[0].vacuous, None);
}

#[test]
fn an_exempt_marker_bypasses_vacuity_detection_and_still_reports_pass() {
    let corpus = corpus_with("### [x]\n\n```claim\nkind: constraint\nevaluator: test\n```\n");
    let markers = vec![exempt_marker("x", &format!("printf '%s' '{CARGO_ZERO_COLLECTED}'"))];
    let result = run_claim(&corpus, "x", &markers).unwrap();
    assert_eq!(result.outcome, Outcome::Pass);
    assert_eq!(result.markers[0].vacuous, None);
}

#[test]
fn a_unittest_block_with_real_passes_outranks_a_vacuous_doctest_block() {
    let corpus = corpus_with("### [x]\n\n```claim\nkind: constraint\nevaluator: test\n```\n");
    let output = "running 17 tests\n\
         test result: ok. 17 passed; 0 failed; 0 ignored; 0 measured; 0 filtered out; finished in 0.00s\n\
         \n\
         running 0 tests\n\
         \n\
         test result: ok. 0 passed; 0 failed; 0 ignored; 0 measured; 1 filtered out; finished in 0.00s\n";
    let markers = vec![marker("x", &format!("printf '%s' '{output}'"))];
    let result = run_claim(&corpus, "x", &markers).unwrap();
    assert_eq!(result.outcome, Outcome::Pass);
    assert_eq!(result.markers[0].vacuous, None);
}

#[test]
fn multiple_all_vacuous_blocks_still_report_vacuous() {
    let corpus = corpus_with("### [x]\n\n```claim\nkind: constraint\nevaluator: test\n```\n");
    let output = "test result: ok. 0 passed; 0 failed; 0 ignored; 0 measured; 1 filtered out; finished in 0.00s\n\
         test result: ok. 0 passed; 0 failed; 1 ignored; 0 measured; 0 filtered out; finished in 0.00s\n";
    let markers = vec![marker("x", &format!("printf '%s' '{output}'"))];
    let result = run_claim(&corpus, "x", &markers).unwrap();
    assert_eq!(result.outcome, Outcome::Vacuous);
}

#[test]
fn a_marker_with_no_recognized_output_shape_still_passes() {
    let corpus = corpus_with("### [x]\n\n```claim\nkind: constraint\nevaluator: test\n```\n");
    let markers = vec![marker("x", "echo 'some other tool, all clear'")];
    let result = run_claim(&corpus, "x", &markers).unwrap();
    assert_eq!(result.outcome, Outcome::Pass);
}

#[test]
fn a_bare_marker_passes_a_type_graded_claim_without_spawning_anything() {
    let corpus = corpus_with("### [x]\n\n```claim\nkind: constraint\nevaluator: type\n```\n");
    let markers = vec![bare_marker("x")];
    let result = run_claim(&corpus, "x", &markers).unwrap();
    assert_eq!(result.outcome, Outcome::Pass);
    assert_eq!(result.markers.len(), 1);
    assert!(result.markers[0].success);
    assert_eq!(result.markers[0].exit_code, None);
    assert_eq!(result.markers[0].vacuous, None);
}

#[test]
fn a_bare_marker_on_a_non_type_grade_is_ignored_and_reports_absent() {
    let corpus = corpus_with("### [x]\n\n```claim\nkind: constraint\nevaluator: test\n```\n");
    let markers = vec![bare_marker("x")];
    let result = run_claim(&corpus, "x", &markers).unwrap();
    assert_eq!(result.outcome, Outcome::Absent);
    assert!(result.markers.is_empty());
}

#[test]
fn a_type_graded_claim_can_mix_a_bare_marker_with_a_commanded_one() {
    let corpus = corpus_with("### [x]\n\n```claim\nkind: constraint\nevaluator: type\n```\n");
    let markers = vec![bare_marker("x"), marker("x", "true")];
    let result = run_claim(&corpus, "x", &markers).unwrap();
    assert_eq!(result.outcome, Outcome::Pass);
    assert_eq!(result.markers.len(), 2);
}

#[test]
fn a_type_graded_claim_still_fails_if_its_commanded_marker_fails() {
    let corpus = corpus_with("### [x]\n\n```claim\nkind: constraint\nevaluator: type\n```\n");
    let markers = vec![bare_marker("x"), marker("x", "false")];
    let result = run_claim(&corpus, "x", &markers).unwrap();
    assert_eq!(result.outcome, Outcome::Fail);
}

#[test]
fn a_bare_marker_for_a_different_claim_id_does_not_match() {
    let corpus = corpus_with("### [x]\n\n```claim\nkind: constraint\nevaluator: type\n```\n");
    let markers = vec![bare_marker("y")];
    let result = run_claim(&corpus, "x", &markers).unwrap();
    assert_eq!(result.outcome, Outcome::Absent);
}

#[test]
fn detect_vacuity_needs_a_summary_line_and_only_empty_ones() {
    assert_eq!(detect_vacuity(""), None);
    assert_eq!(detect_vacuity("all clear\n"), None);
    assert_eq!(
        detect_vacuity(CARGO_ZERO_COLLECTED),
        Some("cargo test collected nothing to run (or only #[ignore]d tests)")
    );
    assert_eq!(
        detect_vacuity("test result: ok. 2 passed; 0 failed; 0 ignored\ntest result: ok. 0 passed; 0 failed;"),
        None
    );
}

#[test]
fn outcome_names_are_the_reported_ones() {
    let names: Vec<&str> = [
        Outcome::Pass,
        Outcome::Fail,
        Outcome::Absent,
        Outcome::Unimplemented,
        Outcome::Review,
        Outcome::Vacuous,
    ]
    .iter()
    .map(|o| o.as_str())
    .collect();
    assert_eq!(names, vec!["pass", "fail", "absent", "none", "review", "vacuous"]);
}

#[test]
fn an_absent_claim_passes_when_its_literal_occurs_nowhere_and_is_never_executed() {
    let corpus = corpus_with("### [x]\n\n```claim\nkind: constraint\nevaluator: absent\n```\n");
    // `false` would fail if it were run as a command; it is only searched for.
    let markers = vec![marker("x", "false")];
    match plan_run(&corpus, "x", &markers) {
        Ok(RunPlan::Search { markers: planned, .. }) => assert_eq!(planned.len(), 1),
        _ => panic!("an absent claim is planned as a search"),
    }
    let result = run_claim(&corpus, "x", &markers).unwrap();
    assert_eq!(result.outcome, Outcome::Pass);
    assert!(result.markers[0].success);
    assert_eq!(result.markers[0].stdout, "");
}

#[test]
fn an_absent_claim_fails_when_its_literal_is_found_and_lists_the_hits() {
    let corpus = corpus_with("### [x]\n\n```claim\nkind: constraint\nevaluator: absent\n```\n");
    let markers = vec![marker("x", "Retry-After"), marker("x", "X-Legacy")];
    let result = run_claim(&corpus, "x", &markers).unwrap();
    assert_eq!(result.outcome, Outcome::Fail);
    // Only inside a comment in lib.rs, and in documentation: no hit.
    assert!(result.markers[0].success);
    assert!(!result.markers[1].success);
    assert_eq!(result.markers[1].exit_code, None);
    assert_eq!(result.markers[1].stdout, "src/http.py:2\n");
}

#[test]
fn an_absent_claim_with_only_bare_markers_is_absent() {
    let corpus = corpus_with("### [x]\n\n```claim\nkind: constraint\nevaluator: absent\n```\n");
    let result = run_claim(&corpus, "x", &[bare_marker("x")]).unwrap();
    assert_eq!(result.outcome, Outcome::Absent);
}

#[test]
fn search_outcome_reports_every_hit_as_file_and_line() {
    let hits = vec![
        SourceHit { file: "a.rs".to_string(), line: Line(3) },
        SourceHit { file: "b/c.go".to_string(), line: Line(12) },
    ];
    let o = search_outcome(marker("x", "lit"), &hits);
    assert!(!o.success);
    assert_eq!(o.stdout, "a.rs:3\nb/c.go:12\n");
    assert!(o.vacuous.is_none());
}

#[test]
fn each_outcome_has_its_exit_status() {
    assert_eq!(Outcome::Pass.exit_status(), 0);
    assert_eq!(Outcome::Unimplemented.exit_status(), 0);
    assert_eq!(Outcome::Review.exit_status(), 0);
    assert_eq!(Outcome::Fail.exit_status(), 1);
    assert_eq!(Outcome::Absent.exit_status(), 3);
    assert_eq!(Outcome::Vacuous.exit_status(), 4);
}
