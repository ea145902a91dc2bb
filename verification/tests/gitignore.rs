use docket::gitignore::{find_backtick_references, path_shaped, resolve};
use docket::model::Line;

#[test]
fn a_bare_word_with_no_slash_dot_or_anchor_is_a_claim_id_candidate() {
    assert_eq!(path_shaped("sibling-claim").as_deref(), None);
}

#[test]
fn a_same_file_anchor_only_link_is_not_path_shaped() {
    assert_eq!(path_shaped("#some-heading").as_deref(), None);
}

#[test]
fn an_empty_href_is_not_path_shaped() {
    assert_eq!(path_shaped("").as_deref(), None);
}

#[test]
fn a_slash_makes_a_bare_word_path_shaped() {
    assert_eq!(path_shaped("../notes").as_deref(), Some("../notes"));
}

#[test]
fn a_dot_makes_a_bare_word_path_shaped() {
    assert_eq!(path_shaped("notes.txt").as_deref(), Some("notes.txt"));
}

#[test]
fn an_anchor_makes_a_bare_word_path_shaped_even_with_no_slash_or_dot() {
    assert_eq!(path_shaped("sibling#3").as_deref(), Some("sibling"));
}

#[test]
fn an_anchor_with_an_empty_path_part_is_not_path_shaped() {
    assert_eq!(path_shaped("#3").as_deref(), None);
}

#[test]
fn resolves_relative_to_the_citing_files_directory() {
    assert_eq!(
        resolve("docs/specs/x.md", "../scratch/notes.md"),
        Some("docs/scratch/notes.md".to_string())
    );
}

#[test]
fn resolves_a_leading_slash_as_corpus_root_relative() {
    assert_eq!(
        resolve("docs/specs/deep/x.md", "/.scratch/notes.md"),
        Some(".scratch/notes.md".to_string())
    );
}

#[test]
fn a_sibling_file_resolves_within_the_same_directory() {
    assert_eq!(
        resolve("docs/specs/x.md", "sibling.md"),
        Some("docs/specs/sibling.md".to_string())
    );
}

#[test]
fn escaping_the_corpus_root_resolves_to_none() {
    assert_eq!(resolve("x.md", "../../outside.md"), None);
}

#[test]
fn a_single_backtick_span_is_extracted_with_its_line_number() {
    let text = "line one\nsee `.ledger/notes.md` for background\n";
    let found = find_backtick_references("contracts/x.ncl", text);
    assert_eq!(found.len(), 1);
    assert_eq!(found[0].file, "contracts/x.ncl");
    assert_eq!(found[0].line, Line(2));
    assert_eq!(found[0].dest, ".ledger/notes.md");
}

#[test]
fn multiple_backtick_spans_on_one_line_are_all_extracted() {
    let text = "# see `a.ncl` and `b.ncl` both\n";
    let found = find_backtick_references("x.ncl", text);
    assert_eq!(found.len(), 2);
    assert_eq!(found[0].dest, "a.ncl");
    assert_eq!(found[1].dest, "b.ncl");
}

#[test]
fn an_unclosed_backtick_on_a_line_yields_nothing_for_that_line() {
    let text = "this has one stray ` backtick only\n";
    assert!(find_backtick_references("x.ncl", text).is_empty());
}

#[test]
fn a_span_never_crosses_a_newline() {
    let text = "opens here `\ncloses here `\n";
    assert!(find_backtick_references("x.ncl", text).is_empty());
}

#[test]
fn a_backtick_span_with_no_path_shaped_content_is_still_captured() {
    let text = "run `cargo test` first\n";
    let found = find_backtick_references("x.ncl", text);
    assert_eq!(found.len(), 1);
    assert_eq!(found[0].dest, "cargo test");
}
