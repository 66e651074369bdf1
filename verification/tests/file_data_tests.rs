use scip_cli::file_data::{collect_definitions, make_file_data, make_manifest};
use scip_cli::index::{Document, Occurrence, SingleLineRange, SymbolInformation, TypedRange, DEFINITION_ROLE};

fn occurrence(range: Vec<i32>, symbol: &str, roles: i32, syntax_kind: i32) -> Occurrence {
    Occurrence {
        range,
        typed_range: None,
        symbol: symbol.to_owned(),
        symbol_roles: roles,
        syntax_kind,
        encoded: Vec::new(),
    }
}

fn document(path: &str, occurrences: Vec<Occurrence>, encoding: i32) -> Document {
    Document {
        language: "C".to_owned(),
        relative_path: path.to_owned(),
        occurrences,
        symbols: Vec::new(),
        text: String::new(),
        position_encoding: encoding,
    }
}

#[test]
fn occurrences_link_to_first_definitions_across_files() {
    let documents = vec![
        document(
            "a.c",
            vec![
                occurrence(vec![1, 4, 8], "scip c . . f().", DEFINITION_ROLE, 0),
                occurrence(vec![2, 0, 1], "local 1", DEFINITION_ROLE, 0),
            ],
            1,
        ),
        document(
            "b.c",
            vec![
                occurrence(vec![0, 0, 1], "scip c . . f().", 0, 0),
                occurrence(vec![0, 2, 3], "local 1", 0, 0),
                occurrence(vec![0, 4, 5], "", 0, 7),
                occurrence(vec![9, 0, 1], "scip c . . f().", 0, 0),
            ],
            1,
        ),
    ];
    let sources = vec!["x\nint f() {}\nz\n".to_owned(), "f l ;\n".to_owned()];
    let definitions = collect_definitions(&documents, &sources);

    let data = make_file_data(1, &documents[1], &sources[1], &definitions);
    assert_eq!(data.path, "b.c");
    assert_eq!(data.symbols, vec!["scip c . . f().".to_owned(), "local 1".to_owned()]);
    assert_eq!(
        data.occurrences,
        vec![
            [0, 0, 0, 1, 0, 0, 1, 4, 0, 0],
            [0, 2, 0, 3, 1, -1, -1, -1, 0, 0],
            [0, 4, 0, 5, -1, -1, -1, -1, 0, 7],
        ]
    );

    let own = make_file_data(0, &documents[0], &sources[0], &definitions);
    assert_eq!(own.occurrences[1], [2, 0, 2, 1, 1, 0, 2, 0, 1, 0]);
}

#[test]
fn typed_ranges_win_over_untyped_ones_and_columns_become_utf16() {
    let mut typed = occurrence(vec![5, 5, 5], "scip x", 0, 0);
    typed.typed_range = Some(TypedRange::SingleLineRange(SingleLineRange {
        line: 0,
        start_character: 2,
        end_character: 6,
    }));
    let documents = vec![document("u.c", vec![typed], 1)];
    let sources = vec!["é = 1;".to_owned()];
    let definitions = collect_definitions(&documents, &sources);
    let data = make_file_data(0, &documents[0], &sources[0], &definitions);
    assert_eq!(data.occurrences, vec![[0, 1, 0, 5, 0, -1, -1, -1, 0, 0]]);
    assert_eq!(data.text, "é = 1;");
}

#[test]
fn documentation_is_joined_by_paragraphs_and_the_last_information_wins() {
    let mut doc = document("d.c", Vec::new(), 0);
    doc.symbols = vec![
        SymbolInformation {
            symbol: "s".to_owned(),
            documentation: vec!["old".to_owned()],
            encoded: Vec::new(),
        },
        SymbolInformation {
            symbol: "s".to_owned(),
            documentation: vec!["  first  ".to_owned(), "   ".to_owned(), "second".to_owned()],
            encoded: Vec::new(),
        },
        SymbolInformation {
            symbol: String::new(),
            documentation: vec!["ignored".to_owned()],
            encoded: Vec::new(),
        },
        SymbolInformation {
            symbol: "empty".to_owned(),
            documentation: vec![" ".to_owned()],
            encoded: Vec::new(),
        },
    ];
    let sources = vec![String::new()];
    let definitions = collect_definitions(&vec![document("d.c", Vec::new(), 0)], &sources);
    let data = make_file_data(0, &doc, &sources[0], &definitions);
    assert_eq!(data.docs, vec![("s".to_owned(), "first\n\nsecond".to_owned())]);
}

#[test]
fn the_manifest_lists_each_document_by_position() {
    let documents = vec![document("a.c", Vec::new(), 0), document("b.rs", Vec::new(), 0)];
    let manifest = make_manifest("T", "https://x", "x", "c1", &documents, 7);
    assert_eq!(manifest.title, "T");
    assert_eq!(manifest.repo_slug, "x");
    assert_eq!(manifest.file_count, 2);
    assert_eq!(manifest.occurrence_count, 7);
    assert_eq!(manifest.files[1].id, 1);
    assert_eq!(manifest.files[1].path, "b.rs");
    assert_eq!(manifest.files[1].language, "C");
}
