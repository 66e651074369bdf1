use scip_cli::function_docs::{hex_string, source_hash, stable_doc_key};
use scip_cli::site::infer_source_root;

#[test]
fn source_hash_is_the_sha256_of_the_text() {
    assert_eq!(
        source_hash("abc"),
        "ba7816bf8f01cfea414140de5dae2223b00361a396177a9cb410ff61f20015ad"
    );
    assert_eq!(
        source_hash(""),
        "e3b0c44298fc1c149afbf4c8996fb92427ae41e4649b934ca495991b7852b855"
    );
}

#[test]
fn digests_are_written_in_lower_case_hex() {
    assert_eq!(hex_string(&[0x00, 0x0f, 0xa5, 0xff]), "000fa5ff");
}

#[test]
fn document_keys_are_sha256_of_the_identity() {
    assert_eq!(
        stable_doc_key("r", "c", "f", "global"),
        source_hash("r\0c\0global")
    );
    assert_eq!(
        stable_doc_key("r", "c", "f", "local 3"),
        source_hash("r\0c\0f\0local 3")
    );
}

#[test]
fn a_file_url_names_the_source_root() {
    assert_eq!(infer_source_root(None), None);
    assert_eq!(infer_source_root(Some("file:///tmp/checkout")).as_deref(), Some("/tmp/checkout"));
    assert_eq!(infer_source_root(Some("not a url")), None);
}

#[test]
fn digests_are_sixty_four_lower_case_hex_digits() {
    for key in [
        source_hash("anything"),
        stable_doc_key("repo", "commit", "file", "local 2"),
    ] {
        assert_eq!(key.len(), 64);
        assert!(key.chars().all(|c| matches!(c, '0'..='9' | 'a'..='f')));
    }
}
