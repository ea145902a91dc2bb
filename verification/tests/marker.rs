use docket::located::sorted_by_location;
use docket::marker::{markers_in, parse_marker_line, Marker};
use docket::model::Line;

#[test]
fn parses_a_rust_line_comment_marker() {
    assert_eq!(
        parse_marker_line("// @docket: lock-groundness :: cargo test ground_values_only"),
        Some((
            "lock-groundness".to_string(),
            false,
            "cargo test ground_values_only".to_string()
        ))
    );
}

#[test]
fn parses_a_tla_plus_line_comment_marker() {
    assert_eq!(
        parse_marker_line("\\* @docket: spine-chain-complete :: tlc Model.tla"),
        Some((
            "spine-chain-complete".to_string(),
            false,
            "tlc Model.tla".to_string()
        ))
    );
}

#[test]
fn parses_an_alloy_line_comment_marker() {
    assert_eq!(
        parse_marker_line("-- @docket: no-double-spend :: alloy exec Model.als"),
        Some((
            "no-double-spend".to_string(),
            false,
            "alloy exec Model.als".to_string()
        ))
    );
}

#[test]
fn a_trailing_bang_on_the_id_marks_the_marker_vacuity_exempt() {
    assert_eq!(
        parse_marker_line("// @docket: no-double-spend! :: alloy exec Model.als"),
        Some((
            "no-double-spend".to_string(),
            true,
            "alloy exec Model.als".to_string()
        ))
    );
}

#[test]
fn the_exempt_bang_must_immediately_follow_the_id_not_float_in_whitespace() {
    assert_eq!(
        parse_marker_line("// @docket: no-double-spend ! :: alloy exec Model.als"),
        None
    );
}

#[test]
fn a_bare_marker_with_no_command_does_not_parse() {
    assert_eq!(parse_marker_line("// @docket: lock-groundness"), None);
}

#[test]
fn a_line_with_no_keyword_at_all_does_not_parse() {
    assert_eq!(parse_marker_line("fn ground_values_only() {}"), None);
}

#[test]
fn docket_as_part_of_a_longer_identifier_is_not_a_keyword_match() {
    assert_eq!(
        parse_marker_line("// not_@docket: x :: y"),
        None,
        "the boundary check must reject a `@docket:` that is part of a longer token"
    );
}

#[test]
fn an_uppercase_or_non_kebab_id_does_not_parse() {
    assert_eq!(
        parse_marker_line("// @docket: Lock_Groundness :: cmd"),
        None
    );
}

#[test]
fn a_command_with_double_colons_in_it_keeps_only_the_first_split() {
    assert_eq!(
        parse_marker_line("// @docket: x :: cargo test mod::test_name -- --exact"),
        Some((
            "x".to_string(),
            false,
            "cargo test mod::test_name -- --exact".to_string()
        ))
    );
}

/// The markers of a tree's files, in report order (dot-directories are
/// never walked).
fn scan_markers(files: &[(&str, &str)]) -> Vec<Marker> {
    let mut all = Vec::new();
    for (relative, contents) in files {
        if relative.split('/').any(|seg| seg.starts_with('.')) {
            continue;
        }
        all.extend(markers_in(relative, contents));
    }
    sorted_by_location(all)
}

#[test]
fn scans_a_small_tree_and_reports_file_and_line() {
    let markers = scan_markers(&[
        ("src/lib.rs", "// nothing here\n// @docket: x :: true\n"),
        ("docs/notes.md", "no markers\n"),
        (".git/config", "// @docket: hidden :: true\n"),
    ]);
    assert_eq!(markers.len(), 1);
    assert_eq!(markers[0].id, "x");
    assert_eq!(markers[0].command.as_deref(), Some("true"));
    assert_eq!(markers[0].file, "src/lib.rs");
    assert_eq!(markers[0].line, Line(2));
}

#[test]
fn multiple_markers_for_distinct_ids_are_all_found() {
    let markers = scan_markers(&[("src/lib.rs", "// @docket: a :: true\nfn x() {}\n// @docket: b :: false\n")]);
    let ids: Vec<&str> = markers.iter().map(|m| m.id.as_str()).collect();
    assert_eq!(ids, vec!["a", "b"]);
}

#[test]
fn markers_in_counts_lines_from_one_and_drops_a_carriage_return() {
    let markers = markers_in("t.sh", "# @docket: a! :: run it\r\n\r\n# @docket: b :: x\n# @docket: c\n");
    let found: Vec<(&str, Option<&str>, usize, bool)> =
        markers.iter().map(|m| (m.id.as_str(), m.command.as_deref(), m.line.0, m.exempt)).collect();
    assert_eq!(found, vec![("a", Some("run it"), 1, true), ("b", Some("x"), 3, false)]);
    assert!(markers.iter().all(|m| m.file == "t.sh"));
    assert!(markers_in("empty", "").is_empty());
}

#[test]
fn markers_are_reported_by_file_then_line() {
    let m = |file: &str, line: usize, id: &str| Marker {
        id: id.into(),
        command: Some("true".into()),
        file: file.into(),
        line: Line(line),
        exempt: false,
    };
    let sorted = sorted_by_location(vec![m("src/b.rs", 1, "p"), m("src/a.rs", 9, "q"), m("src/a.rs", 2, "r"), m("src/a.rs", 2, "s")]);
    let ids: Vec<&str> = sorted.iter().map(|m| m.id.as_str()).collect();
    assert_eq!(ids, vec!["r", "s", "q", "p"]);
}
