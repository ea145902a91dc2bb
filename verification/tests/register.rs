use docket::blast::{check_target, TargetError};
use docket::checks::{parse_severity, register_input, CheckReport, Diagnostic, Severity};
use docket::config::{config_of, parse_kind, parse_quadrant, AmbiguousGenre, Config, Genre};
use docket::contracts::MaterializedContracts;
use docket::corpus::{add_document, add_source_file, CorpusError, LoadedCorpus};
use docket::extract::extract_document;
use docket::index::build_index;
use docket::model::{Corpus, Document, Heading, Index, IndexClaim, IndexDocument, Kind, Line, Quadrant};

fn diag(severity: Severity) -> Diagnostic {
    Diagnostic { check: "C1".into(), severity, file: "a.md".into(), line: 1, message: "m".into() }
}

#[test]
fn a_report_with_only_warnings_passes() {
    assert!(CheckReport { diagnostics: vec![] }.passed());
    assert!(CheckReport { diagnostics: vec![diag(Severity::Warn), diag(Severity::Warn)] }.passed());
    assert!(!CheckReport { diagnostics: vec![diag(Severity::Warn), diag(Severity::Fail)] }.passed());
}

#[test]
fn severities_are_read_by_their_register_names() {
    assert_eq!(parse_severity("fail"), Some(Severity::Fail));
    assert_eq!(parse_severity("warn"), Some(Severity::Warn));
    assert_eq!(parse_severity("Fail"), None);
    assert_eq!(parse_severity(""), None);
}

#[test]
fn kinds_and_quadrants_are_read_by_their_configuration_names() {
    assert_eq!(parse_kind("constraint"), Some(Kind::Constraint));
    assert_eq!(parse_kind("requirement"), Some(Kind::Requirement));
    assert_eq!(parse_kind("invariant"), Some(Kind::Invariant));
    assert_eq!(parse_kind("constraints"), None);
    assert_eq!(parse_quadrant("how-to"), Some(Quadrant::HowTo));
    assert_eq!(parse_quadrant("reference"), Some(Quadrant::Reference));
    assert_eq!(parse_quadrant("howto"), None);
    assert_eq!(Kind::Invariant.as_str(), "invariant");
    assert_eq!(Quadrant::Explanation.as_str(), "explanation");
}

fn genre(path: &str) -> Genre {
    Genre { path: path.into(), kinds: vec![Kind::Constraint], quadrant: Quadrant::Reference }
}

#[test]
fn a_path_matches_at_most_one_genre() {
    let config = Config { genres: vec![genre("docs/specs/**"), genre("docs/models/*.md")] };
    assert_eq!(config.match_genre("docs/specs/a/b.md").unwrap().unwrap().path, "docs/specs/**");
    assert_eq!(config.match_genre("docs/models/m.md").unwrap().unwrap().path, "docs/models/*.md");
    assert!(config.match_genre("README.md").unwrap().is_none());
    let bad = Config { genres: vec![genre("docs/**"), genre("docs/specs/**"), genre("other/**")] };
    let err = bad.match_genre("docs/specs/x.md").unwrap_err();
    assert_eq!(err, AmbiguousGenre { path: "docs/specs/x.md".into(), matched: vec!["docs/**".into(), "docs/specs/**".into()] });
    assert_eq!(err.message(), "docs/specs/x.md matches more than one genre: docs/**, docs/specs/**");
}

#[test]
fn an_invalid_glob_matches_nothing() {
    let config = Config { genres: vec![genre("docs/[")] };
    assert!(config.match_genre("docs/[").unwrap().is_none());
}

#[test]
fn materialized_contracts_sit_side_by_side_in_their_directory() {
    let c = MaterializedContracts::at("/tmp/contracts".into());
    assert_eq!(c.dir_path(), "/tmp/contracts");
    assert_eq!(c.docket_path(), "/tmp/contracts/docket.ncl");
    assert_eq!(c.register_path(), "/tmp/contracts/register.ncl");
    let slash = MaterializedContracts::at("d/".into());
    assert_eq!(slash.docket_path(), "d/docket.ncl");
}

fn corpus_with_doc() -> Corpus {
    let src = "### [lock-groundness]\n\n```claim\nkind: constraint\nevaluator: test\n```\n";
    let result = extract_document("docs/specs/lock.md", src);
    Corpus {
        claims: result.claims,
        documents: vec![Document {
            doc_path: "docs/specs/lock".into(),
            file: "docs/specs/lock.md".into(),
            genre_path: "docs/specs/**".into(),
            headings: vec![Heading { level: 2, text: "6. Composition".into(), line: Line(1), slug: "6-composition".into() }],
        }],
    }
}

#[test]
fn a_blast_target_must_name_something_in_the_corpus() {
    let corpus = corpus_with_doc();
    assert_eq!(check_target(&corpus, "lock-groundness"), Ok(()));
    assert_eq!(check_target(&corpus, "docs/specs/lock#6"), Ok(()));
    assert_eq!(check_target(&corpus, "nope"), Err(TargetError::UnknownClaim("nope".into())));
    assert_eq!(
        check_target(&corpus, "docs/specs/lock#7"),
        Err(TargetError::UnresolvedAnchor("docs/specs/lock#7".into()))
    );
    assert_eq!(
        check_target(&corpus, "docs/other#6"),
        Err(TargetError::UnresolvedAnchor("docs/other#6".into()))
    );
}

#[test]
fn builds_the_index_rows_of_a_document() {
    let src = "### [lock-groundness]\n\nEvery lock value MUST be ground: names bound to content identities and exact version strings.\n\n```claim\nkind: constraint\nevaluator: property-test\ndepends: [composition-model#6, execution-model#2.4]\n```\n";
    let result = extract_document("docs/specs/lock-file-schema.md", src);
    let corpus = Corpus {
        claims: result.claims,
        documents: vec![Document {
            doc_path: "lock-file-schema".into(),
            file: "docs/specs/lock-file-schema.md".into(),
            genre_path: "docs/specs/**".into(),
            headings: vec![Heading { level: 3, text: "[lock-groundness]".into(), line: Line(1), slug: "lock-groundness".into() }],
        }],
    };
    let index = build_index(&corpus);
    assert_eq!(index.claims.len(), 1);
    let (id, claim) = &index.claims[0];
    assert_eq!(id, "lock-groundness");
    assert_eq!(claim.file, "docs/specs/lock-file-schema.md");
    assert_eq!(claim.kind, "constraint");
    assert_eq!(claim.evaluator, "property-test");
    assert_eq!(claim.depends, vec!["composition-model#6", "execution-model#2.4"]);
    assert_eq!(index.documents.len(), 1);
    assert_eq!(index.documents[0].0, "lock-file-schema");
    assert_eq!(index.documents[0].1, IndexDocument { file: "docs/specs/lock-file-schema.md".into(), genre: "docs/specs/**".into() });
}

#[test]
fn index_keys_stay_ascending_and_a_later_row_wins() {
    let mut loaded = LoadedCorpus::new();
    add_document(&mut loaded, "docs/z.md", "docs/**", "### [zeta]\n\n```claim\nkind: constraint\nevaluator: test\n```\n");
    add_document(&mut loaded, "docs/a.md", "docs/**", "### [alpha]\n\n```claim\nkind: constraint\nevaluator: one\n```\n");
    add_document(&mut loaded, "docs/b.md", "docs/**", "### [alpha]\n\n```claim\nkind: invariant\nevaluator: two\n```\n");
    let index = build_index(&loaded.corpus);
    let keys: Vec<&str> = index.claims.iter().map(|(k, _)| k.as_str()).collect();
    assert_eq!(keys, vec!["alpha", "zeta"]);
    assert_eq!(index.claims[0].1.evaluator, "two");
    assert_eq!(index.claims[0].1.file, "docs/b.md");
    let docs: Vec<&str> = index.documents.iter().map(|(k, _)| k.as_str()).collect();
    assert_eq!(docs, vec!["docs/a", "docs/b", "docs/z"]);
}

#[test]
fn inserting_a_row_reads_back_what_was_written() {
    let row = |e: &str| IndexClaim {
        file: "f.md".into(),
        line: 1,
        kind: "constraint".into(),
        evaluator: e.into(),
        depends: vec![],
        because: vec![],
    };
    let mut index = Index::new();
    index.insert_claim("m".into(), row("1"));
    index.insert_claim("b".into(), row("2"));
    index.insert_claim("x".into(), row("3"));
    index.insert_claim("b".into(), row("4"));
    let rows: Vec<(&str, &str)> = index.claims.iter().map(|(k, c)| (k.as_str(), c.evaluator.as_str())).collect();
    assert_eq!(rows, vec![("b", "4"), ("m", "1"), ("x", "3")]);
    index.insert_document("docs/q".into(), IndexDocument { file: "docs/q.md".into(), genre: "g".into() });
    assert_eq!(index.documents.len(), 1);
    assert_eq!(index.claims.len(), 3);
}

fn config(genres: &[(&str, &[Kind], Quadrant)]) -> Config {
    let genres = genres.iter().map(|(p, k, q)| Genre { path: p.to_string(), kinds: k.to_vec(), quadrant: *q }).collect();
    config_of(genres).expect("every pattern compiles")
}

#[test]
fn match_genre_matches_a_glob_recursive_pattern() {
    let config = config(&[("docs/specs/**", &[Kind::Constraint], Quadrant::Reference)]);
    assert!(config.match_genre("docs/specs/lock-file-schema.md").unwrap().is_some());
    assert!(config.match_genre("docs/specs/nested/deep.md").unwrap().is_some());
    assert!(config.match_genre("docs/models/x.md").unwrap().is_none());
    assert!(config.match_genre("README.md").unwrap().is_none());
}

#[test]
fn a_path_matching_more_than_one_genre_is_an_error() {
    let config = config(&[
        ("docs/**", &[Kind::Requirement], Quadrant::Reference),
        ("docs/specs/**", &[Kind::Constraint], Quadrant::Reference),
    ]);
    let err = config.match_genre("docs/specs/x.md").unwrap_err();
    assert_eq!(err.path, "docs/specs/x.md");
    assert_eq!(err.matched, vec!["docs/**", "docs/specs/**"]);
}

#[test]
fn a_configuration_with_a_pattern_that_does_not_compile_is_refused() {
    let genres = vec![
        Genre { path: "docs/**".into(), kinds: vec![], quadrant: Quadrant::Reference },
        Genre { path: "docs/[".into(), kinds: vec![], quadrant: Quadrant::Reference },
        Genre { path: "***".into(), kinds: vec![], quadrant: Quadrant::Reference },
    ];
    let err = config_of(genres).unwrap_err();
    assert_eq!(err.pattern, "docs/[");
    assert_eq!(err.detail, glob::Pattern::new("docs/[").unwrap_err().to_string());
}

/// A corpus read from a tree's files, as the command line reads it.
fn load_corpus(config: &Config, files: &[(&str, &str)]) -> Result<LoadedCorpus, CorpusError> {
    let mut loaded = LoadedCorpus::new();
    for (relative, contents) in files {
        let Some(genre) = config.match_genre(relative).map_err(CorpusError::AmbiguousGenre)? else {
            continue;
        };
        if relative.ends_with(".md") {
            let genre_path = genre.path.clone();
            add_document(&mut loaded, relative, &genre_path, contents);
        } else {
            add_source_file(&mut loaded, relative, contents);
        }
    }
    Ok(loaded)
}

#[test]
fn scans_only_genre_matched_files() {
    let config = config(&[("docs/specs/**", &[Kind::Constraint], Quadrant::Reference)]);
    let loaded = load_corpus(
        &config,
        &[
            ("README.md", "# hello\n"),
            ("docs/other/ignored.md", "### [not-scanned]\n\n```claim\nkind: constraint\n```\n"),
            ("docs/specs/lock.md", "### [lock-groundness]\n\n```claim\nkind: constraint\n```\n"),
        ],
    )
    .unwrap();
    assert_eq!(loaded.corpus.documents.len(), 1);
    assert_eq!(loaded.corpus.documents[0].doc_path, "docs/specs/lock");
    assert_eq!(loaded.corpus.claims.len(), 1);
    assert_eq!(loaded.corpus.claims[0].id, "lock-groundness");
}

#[test]
fn documents_sharing_a_basename_get_distinct_path_identifiers() {
    let config = config(&[("docs/models/**", &[Kind::Invariant], Quadrant::Reference)]);
    let loaded = load_corpus(&config, &[("docs/models/lean/README.md", "# Lean\n"), ("docs/models/tla/README.md", "# TLA\n")]).unwrap();
    let mut paths: Vec<&str> = loaded.corpus.documents.iter().map(|d| d.doc_path.as_str()).collect();
    paths.sort();
    assert_eq!(paths, vec!["docs/models/lean/README", "docs/models/tla/README"]);
}

#[test]
fn a_file_matching_two_genres_aborts_the_walk() {
    let config = config(&[
        ("docs/**", &[Kind::Requirement], Quadrant::Reference),
        ("docs/specs/**", &[Kind::Constraint], Quadrant::Reference),
    ]);
    let err = load_corpus(&config, &[("docs/specs/x.md", "# hello\n")]).unwrap_err();
    assert!(matches!(err, CorpusError::AmbiguousGenre(_)));
}

#[test]
fn collects_orphan_claims_across_the_corpus() {
    let config = config(&[("docs/**", &[Kind::Constraint], Quadrant::Reference)]);
    let loaded = load_corpus(&config, &[("docs/orphan.md", "## Notes\n\n```claim\nkind: constraint\n```\n")]).unwrap();
    assert_eq!(loaded.corpus.claims.len(), 0);
    assert_eq!(loaded.orphan_claims.len(), 1);
    assert_eq!(loaded.orphan_claims[0].file, "docs/orphan.md");
}

#[test]
fn collects_malformed_ids_across_the_corpus() {
    let config = config(&[("docs/**", &[Kind::Constraint], Quadrant::Reference)]);
    let loaded = load_corpus(&config, &[("docs/a.md", "**[boundary-L1-concerns]**: L1 owns things.\n")]).unwrap();
    assert_eq!(loaded.corpus.claims.len(), 0);
    assert_eq!(loaded.malformed_ids.len(), 1);
    assert_eq!(loaded.malformed_ids[0].file, "docs/a.md");
    assert_eq!(loaded.malformed_ids[0].id, "boundary-L1-concerns");
}

#[test]
fn collects_links_from_a_document_that_declares_no_claims_at_all() {
    let config = config(&[("docs/**", &[], Quadrant::HowTo)]);
    let loaded = load_corpus(&config, &[("docs/guide.md", "# Guide\n\nSee [the spec](specs/a.md#1) for background.\n")]).unwrap();
    assert!(loaded.corpus.claims.is_empty());
    assert_eq!(loaded.links.len(), 1);
    assert_eq!(loaded.links[0].file, "docs/guide.md");
    assert_eq!(loaded.links[0].dest, "specs/a.md#1");
}

#[test]
fn a_genre_matched_non_markdown_file_yields_code_references_only() {
    let config = config(&[("contracts/*.ncl", &[], Quadrant::Reference)]);
    let loaded = load_corpus(&config, &[("contracts/x.ncl", "# see `.ledger/2026-01-01-notes.md` for the decision\n")]).unwrap();
    assert!(loaded.corpus.documents.is_empty());
    assert!(loaded.corpus.claims.is_empty());
    assert_eq!(loaded.code_references.len(), 1);
    assert_eq!(loaded.code_references[0].file, "contracts/x.ncl");
    assert_eq!(loaded.code_references[0].dest, ".ledger/2026-01-01-notes.md");
}

#[test]
fn the_register_input_carries_every_claim_with_its_block_read_as_json() {
    let mut loaded = LoadedCorpus::new();
    add_document(
        &mut loaded,
        "docs/specs/x.md",
        "docs/specs/**",
        "```claim\nkind: x\n```\n\n### [a-claim]\n\nThe system MUST hold.\n\n```claim\nkind: constraint\nevaluator: test\ndepends: [b, docs/m#2]\n```\n\n### [broken]\n\n```claim\nkind: [unclosed\n```\n\n**[lonely]**: nothing follows.\n",
    );
    let config = Config { genres: vec![Genre { path: "docs/specs/**".into(), kinds: vec![Kind::Constraint, Kind::Invariant], quadrant: Quadrant::Reference }] };
    let input = register_input(&loaded, &config);
    assert_eq!(input.claims.len(), 2);
    let a = &input.claims[0];
    assert_eq!(a.id, "a-claim");
    assert_eq!(a.file, "docs/specs/x.md");
    assert_eq!(a.heading_line, 5);
    assert_eq!(a.block_line, 9);
    assert_eq!(a.depends, vec!["b".to_string(), "docs/m#2".to_string()]);
    assert!(a.because.is_empty());
    let json: serde_json::Value = serde_json::from_str(a.raw.as_ref().unwrap()).unwrap();
    assert_eq!(json["kind"], "constraint");
    assert_eq!(json["depends"][1], "docs/m#2");
    assert!(input.claims[1].raw.is_err());
    assert_eq!(input.documents.len(), 1);
    assert_eq!(input.documents[0].doc_path, "docs/specs/x");
    assert_eq!(input.documents[0].headings.len(), 2);
    assert_eq!(input.genres.len(), 1);
    assert_eq!(input.genres[0].kinds, vec!["constraint".to_string(), "invariant".to_string()]);
    assert_eq!(input.orphan_claims, vec![("docs/specs/x.md".to_string(), 1)]);
    assert_eq!(input.normative_occurrences, vec![("docs/specs/x.md".to_string(), 7, "MUST".to_string())]);
    assert_eq!(input.unregistered_definitions, vec![("docs/specs/x.md".to_string(), 21, "lonely".to_string())]);
}
