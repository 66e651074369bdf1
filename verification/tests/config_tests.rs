use scip_cli::config::{validate_name, validate_relative_path};

#[test]
fn rejects_parent_checkout_path() {
    assert!(validate_relative_path("../outside", "test").is_err());
}

#[test]
fn accepts_profile_names() {
    assert!(validate_name("v8-main_1", "test").is_ok());
    assert!(validate_name("v8/main", "test").is_err());
}
