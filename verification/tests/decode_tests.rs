use protobuf::Message;
use scip_cli::decode::decode_index;
use scip_cli::index::TypedRange;
use scip_cli::site::{prepare_documents, slug_location, SiteError};

fn index_bytes(paths: &[&str]) -> Vec<u8> {
    let mut index = scip::types::Index::new();
    let mut metadata = scip::types::Metadata::new();
    metadata.project_root = "file:///tmp/checkout".to_owned();
    index.metadata = protobuf::MessageField::some(metadata);
    for path in paths {
        let mut document = scip::types::Document::new();
        document.relative_path = (*path).to_owned();
        document.language = "C".to_owned();
        document.text = "int x;\n".to_owned();
        let mut occurrence = scip::types::Occurrence::new();
        occurrence.range = vec![0, 4, 5];
        occurrence.symbol = "scip c . . x.".to_owned();
        occurrence.symbol_roles = 1;
        let mut typed = scip::types::Occurrence::new();
        let mut range = scip::types::SingleLineRange::new();
        range.line = 0;
        range.start_character = 0;
        range.end_character = 3;
        typed.typed_range = Some(scip::types::occurrence::Typed_range::SingleLineRange(range));
        document.occurrences = vec![occurrence, typed];
        let mut symbol = scip::types::SymbolInformation::new();
        symbol.symbol = "scip c . . x.".to_owned();
        symbol.documentation = vec!["An int.".to_owned()];
        document.symbols = vec![symbol];
        index.documents.push(document);
    }
    index.write_to_bytes().unwrap()
}

#[test]
fn an_index_decodes_to_its_documents() {
    let decoded = decode_index(&index_bytes(&["src/x.c"])).unwrap();
    assert_eq!(decoded.project_root.as_deref(), Some("file:///tmp/checkout"));
    assert_eq!(decoded.documents.len(), 1);
    let document = &decoded.documents[0];
    assert_eq!(document.relative_path, "src/x.c");
    assert_eq!(document.language, "C");
    assert_eq!(document.text, "int x;\n");
    assert_eq!(document.occurrences.len(), 2);
    assert_eq!(document.occurrences[0].range, vec![0, 4, 5]);
    assert_eq!(document.occurrences[0].symbol_roles, 1);
    assert_eq!(document.occurrences[0].typed_range, None);
    assert_eq!(
        document.occurrences[1].typed_range,
        Some(TypedRange::SingleLineRange(scip_cli::index::SingleLineRange {
            line: 0,
            start_character: 0,
            end_character: 3
        }))
    );
    let mut expected = scip::types::Occurrence::new();
    expected.range = vec![0, 4, 5];
    expected.symbol = "scip c . . x.".to_owned();
    expected.symbol_roles = 1;
    assert_eq!(document.occurrences[0].encoded, expected.write_to_bytes().unwrap());
    assert_eq!(document.symbols[0].documentation, vec!["An int.".to_owned()]);
}

#[test]
fn bytes_that_are_no_index_are_refused() {
    assert!(decode_index(&[0xff, 0xff, 0xff]).is_err());
}

#[test]
fn an_index_without_documents_is_refused() {
    let decoded = decode_index(&index_bytes(&[])).unwrap();
    let mut warnings = Vec::new();
    assert!(matches!(
        prepare_documents(decoded.documents, &mut warnings),
        Err(SiteError::NoDocuments)
    ));
    assert!(warnings.is_empty());
}

#[test]
fn documents_are_consolidated_and_their_paths_checked() {
    let decoded = decode_index(&index_bytes(&["b.c", "a.c", "b.c"])).unwrap();
    let mut warnings = Vec::new();
    let documents = prepare_documents(decoded.documents, &mut warnings).unwrap();
    let paths: Vec<&str> = documents.iter().map(|d| d.relative_path.as_str()).collect();
    assert_eq!(paths, vec!["a.c", "b.c"]);
    assert_eq!(documents[1].occurrences.len(), 2);
    assert_eq!(warnings.len(), 1);

    let decoded = decode_index(&index_bytes(&["ok.c", "../escape.c"])).unwrap();
    match prepare_documents(decoded.documents, &mut Vec::new()) {
        Err(SiteError::UnsafeDocumentPath { path }) => assert_eq!(path, "../escape.c"),
        _ => panic!("unsafe path accepted"),
    }
}

#[test]
fn locations_are_slugged() {
    assert_eq!(slug_location("GitHub.com/owner/repo.git/").unwrap(), "github-com-owner-repo");
    assert_eq!(slug_location("host.example/Team/Project.git.git").unwrap(), "host-example-team-project");
    assert!(matches!(slug_location(".git//"), Err(SiteError::EmptyRepoUrl)));
    assert!(matches!(slug_location("--/__"), Err(SiteError::NoSlugCharacters)));
}
