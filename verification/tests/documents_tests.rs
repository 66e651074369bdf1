use protobuf::Message;
use scip_cli::documents::deduplicate_documents;
use scip_cli::index::{Document, Occurrence, SymbolInformation};

fn occurrence(range: Vec<i32>, symbol: &str) -> Occurrence {
    let mut encoded = scip::types::Occurrence::new();
    encoded.range = range.clone();
    encoded.symbol = symbol.to_owned();
    Occurrence {
        range,
        typed_range: None,
        symbol: symbol.to_owned(),
        symbol_roles: 0,
        syntax_kind: 0,
        encoded: encoded.write_to_bytes().unwrap(),
    }
}

fn symbol(name: &str) -> SymbolInformation {
    let mut encoded = scip::types::SymbolInformation::new();
    encoded.symbol = name.to_owned();
    SymbolInformation {
        symbol: name.to_owned(),
        documentation: Vec::new(),
        encoded: encoded.write_to_bytes().unwrap(),
    }
}

fn document(path: &str, language: &str, text: &str, encoding: i32, occurrences: Vec<Occurrence>) -> Document {
    Document {
        language: language.to_owned(),
        relative_path: path.to_owned(),
        occurrences,
        symbols: Vec::new(),
        text: text.to_owned(),
        position_encoding: encoding,
    }
}

#[test]
fn documents_come_out_once_per_path_in_path_order() {
    let docs = vec![
        document("b.c", "C", "", 0, vec![]),
        document("a.c", "C", "", 0, vec![]),
        document("b.c", "C", "", 0, vec![]),
        document("c.c", "C", "", 0, vec![]),
    ];
    let mut warnings = Vec::new();
    let out = deduplicate_documents(docs, &mut warnings);
    let paths: Vec<&str> = out.iter().map(|d| d.relative_path.as_str()).collect();
    assert_eq!(paths, vec!["a.c", "b.c", "c.c"]);
    assert_eq!(
        warnings,
        vec!["consolidated 1 duplicate SCIP document entry by relative path".to_owned()]
    );
}

#[test]
fn no_warning_without_duplicates() {
    let mut warnings = vec!["earlier".to_owned()];
    let out = deduplicate_documents(
        vec![document("x.c", "C", "", 0, vec![]), document("y.c", "C", "", 0, vec![])],
        &mut warnings,
    );
    assert_eq!(out.len(), 2);
    assert_eq!(warnings, vec!["earlier".to_owned()]);
}

#[test]
fn merged_copies_fill_language_keep_longer_text_and_drop_repeated_entries() {
    let mut first = document("m.c", "", "short", 0, vec![occurrence(vec![0, 0, 1], "a")]);
    first.symbols.push(symbol("a"));
    let mut second = document(
        "m.c",
        "C",
        "longer text",
        0,
        vec![occurrence(vec![0, 0, 1], "a"), occurrence(vec![1, 0, 1], "b")],
    );
    second.symbols.push(symbol("a"));
    second.symbols.push(symbol("b"));
    let third = document("m.c", "Rust", "tiny", 0, vec![occurrence(vec![2, 0, 1], "c")]);

    let mut warnings = Vec::new();
    let out = deduplicate_documents(vec![first, second, third], &mut warnings);

    assert_eq!(out.len(), 1);
    assert_eq!(out[0].language, "C");
    assert_eq!(out[0].text, "longer text");
    let symbols: Vec<&str> = out[0].occurrences.iter().map(|o| o.symbol.as_str()).collect();
    assert_eq!(symbols, vec!["a", "b", "c"]);
    let infos: Vec<&str> = out[0].symbols.iter().map(|s| s.symbol.as_str()).collect();
    assert_eq!(infos, vec!["a", "b"]);
    assert_eq!(
        warnings,
        vec!["consolidated 2 duplicate SCIP document entries by relative path".to_owned()]
    );
}

#[test]
fn text_length_is_counted_in_utf8_bytes() {
    let first = document("u.c", "C", "ééé", 0, vec![]);
    let second = document("u.c", "C", "abcde", 0, vec![]);
    let mut warnings = Vec::new();
    let out = deduplicate_documents(vec![first, second], &mut warnings);
    assert_eq!(out[0].text, "ééé");
}

#[test]
fn conflicting_encodings_keep_the_copy_with_more_occurrences() {
    let first = document("e.c", "C", "", 1, vec![occurrence(vec![0, 0, 1], "a")]);
    let second = document(
        "e.c",
        "C",
        "",
        2,
        vec![occurrence(vec![0, 0, 1], "a"), occurrence(vec![1, 0, 1], "b")],
    );
    let mut warnings = Vec::new();
    let out = deduplicate_documents(vec![first, second], &mut warnings);
    assert_eq!(out.len(), 1);
    assert_eq!(out[0].position_encoding, 2);
    assert_eq!(out[0].occurrences.len(), 2);
    assert_eq!(
        warnings,
        vec![
            "e.c was indexed with conflicting position encodings; kept the most complete copy".to_owned(),
            "consolidated 1 duplicate SCIP document entry by relative path".to_owned(),
        ]
    );
}

#[test]
fn a_single_copy_keeps_repeated_occurrences() {
    let only = document(
        "s.c",
        "C",
        "",
        0,
        vec![occurrence(vec![0, 0, 1], "a"), occurrence(vec![0, 0, 1], "a")],
    );
    let mut warnings = Vec::new();
    let out = deduplicate_documents(vec![only], &mut warnings);
    assert_eq!(out[0].occurrences.len(), 2);
}
