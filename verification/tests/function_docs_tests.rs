use scip_cli::function_docs::stable_doc_key;

#[test]
fn local_symbols_include_the_file_in_the_document_key() {
    assert_ne!(
        stable_doc_key("repo", "commit", "a.cc", "local 1"),
        stable_doc_key("repo", "commit", "b.cc", "local 1")
    );
    assert_eq!(
        stable_doc_key("repo", "commit", "a.cc", "global()."),
        stable_doc_key("repo", "commit", "b.cc", "global().")
    );
}
