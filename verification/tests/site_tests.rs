use protobuf::Message;
use scip_cli::columns::{utf16_column, PositionEncoding};
use scip_cli::definitions::{Definition, Definitions};
use scip_cli::documents::deduplicate_documents;
use scip_cli::file_data::symbol_documentation;
use scip_cli::index::{Document, Occurrence, SymbolInformation};
use scip_cli::render::consolidate_render_occurrences;
use scip_cli::site::{new_catalog, should_prune, slug_repo_url, update_catalog, validate_relative_path};

fn occurrence(range: Vec<i32>, symbol: &str) -> Occurrence {
    let mut encoded = scip::types::Occurrence::new();
    encoded.range = range.clone();
    encoded.symbol = symbol.to_owned();
    Occurrence {
        range,
        typed_range: None,
        symbol: symbol.to_owned(),
        symbol_roles: 0,
        syntax_kind: 0,
        encoded: encoded.write_to_bytes().unwrap(),
    }
}

fn document(path: &str, language: &str, occurrences: Vec<Occurrence>) -> Document {
    Document {
        language: language.to_owned(),
        relative_path: path.to_owned(),
        occurrences,
        symbols: Vec::new(),
        text: String::new(),
        position_encoding: 0,
    }
}

#[test]
fn converts_position_encodings_to_browser_columns() {
    let line: Vec<char> = "a🚀b".chars().collect();
    assert_eq!(
        utf16_column(&line, 5, PositionEncoding::UTF8CodeUnitOffsetFromLineStart),
        3
    );
    assert_eq!(
        utf16_column(&line, 2, PositionEncoding::UTF32CodeUnitOffsetFromLineStart),
        3
    );
    assert_eq!(
        utf16_column(&line, 3, PositionEncoding::UTF16CodeUnitOffsetFromLineStart),
        3
    );
}

#[test]
fn rejects_paths_outside_source_root() {
    assert!(validate_relative_path("src/main.rs").is_ok());
    assert!(validate_relative_path("../secret").is_err());
    assert!(validate_relative_path("/etc/passwd").is_err());
}

#[test]
fn scopes_local_symbols_to_their_document() {
    let first = Definition {
        file: 0,
        line: 1,
        character: 2,
    };
    let second = Definition {
        file: 1,
        line: 3,
        character: 4,
    };
    let mut definitions = Definitions::new(2);
    definitions.insert(0, "local 0", first);
    definitions.insert(1, "local 0", second);
    definitions.insert(0, "scip . . . Foo#", first);

    assert_eq!(definitions.get(0, "local 0").unwrap().file, 0);
    assert_eq!(definitions.get(1, "local 0").unwrap().file, 1);
    assert_eq!(definitions.get(1, "scip . . . Foo#").unwrap().file, 0);
}

#[test]
fn creates_stable_repository_slugs() {
    assert_eq!(
        slug_repo_url("https://GitHub.com/harfbuzz/harfbuzz.git/").unwrap(),
        "github-com-harfbuzz-harfbuzz"
    );
    assert_eq!(
        slug_repo_url("git@github.com:owner/repo.git").unwrap(),
        "github-com-owner-repo"
    );
}

#[test]
fn catalog_keeps_only_the_most_recently_generated_revision() {
    let catalog = new_catalog();
    let catalog = update_catalog(catalog, "repo", "https://example.com/repo", "aaa", "Repo", 1, 2).unwrap();
    let catalog = update_catalog(catalog, "repo", "https://example.com/repo", "bbb", "Repo", 3, 4).unwrap();
    let catalog = update_catalog(catalog, "repo", "https://example.com/repo", "aaa", "Repo", 5, 6).unwrap();

    assert_eq!(catalog.projects[0].commits[0].commit, "aaa");
    assert_eq!(catalog.projects[0].commits[0].file_count, 5);
    assert_eq!(catalog.projects[0].commits.len(), 1);
}

#[test]
fn removes_old_commit_directories() {
    let entries = [(true, "old"), (true, "current")];
    let kept: Vec<&str> = entries
        .iter()
        .filter(|(is_dir, name)| !should_prune(*is_dir, name, "current"))
        .map(|(_, name)| *name)
        .collect();

    assert!(!kept.contains(&"old"));
    assert!(kept.contains(&"current"));
}

#[test]
fn consolidates_duplicate_document_paths() {
    let first = document(
        "tools/tiff_tools.c",
        "C",
        vec![occurrence(vec![0, 0, 3], "scip . . . first")],
    );
    let second = document(
        "tools/tiff_tools.c",
        "C",
        vec![
            occurrence(vec![0, 0, 3], "scip . . . first"),
            occurrence(vec![1, 0, 3], "scip . . . second"),
        ],
    );

    let mut warnings = Vec::new();
    let documents = deduplicate_documents(vec![first, second], &mut warnings);

    assert_eq!(documents.len(), 1);
    assert_eq!(documents[0].occurrences.len(), 2);
    assert!(warnings.iter().any(|warning| warning.contains("duplicate")));
}

#[test]
fn prefers_clickable_occurrence_for_the_same_range() {
    let syntax_only = [2, 4, 2, 10, -1, -1, -1, -1, 0, 17];
    let clickable = [2, 4, 2, 10, 3, 7, 12, 2, 0, 0];

    let occurrences = consolidate_render_occurrences(vec![syntax_only, clickable]);

    assert_eq!(occurrences.len(), 1);
    assert_eq!(occurrences[0][5], 7);
    assert_eq!(occurrences[0][9], 17);
}

#[test]
fn preserves_scip_symbol_documentation_for_the_browser() {
    let symbols = vec![SymbolInformation {
        symbol: "cxx . . example().".to_owned(),
        documentation: vec![
            "First paragraph.".to_owned(),
            "Second paragraph.".to_owned(),
        ],
        encoded: Vec::new(),
    }];

    let docs = symbol_documentation(&symbols);

    assert_eq!(
        docs.iter()
            .find(|(symbol, _)| symbol == "cxx . . example().")
            .map(|(_, text)| text.as_str()),
        Some("First paragraph.\n\nSecond paragraph.")
    );
}
