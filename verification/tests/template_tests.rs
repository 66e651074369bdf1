use scip_cli::template::{TemplateError, Variables};

#[test]
fn renders_multiple_variables() {
    let mut variables = Variables::default();
    variables.insert("repo", "v8");
    variables.insert("jobs", "8");
    assert_eq!(
        variables.render("build {repo} with {jobs}").unwrap(),
        "build v8 with 8"
    );
}

#[test]
fn rejects_unknown_variables() {
    assert!(Variables::default().render("{missing}").is_err());
}

#[test]
fn recursively_renders_variable_values() {
    let mut variables = Variables::default();
    variables.insert("root", "/tmp/repo");
    variables.insert("build", "{root}/build");
    assert_eq!(
        variables.render("{build}/file").unwrap(),
        "/tmp/repo/build/file"
    );
}

#[test]
fn rejects_variable_cycles() {
    let mut variables = Variables::default();
    variables.insert("a", "{b}");
    variables.insert("b", "{a}");
    assert!(variables.render("{a}").is_err());
}

#[test]
fn each_template_error_names_its_text() {
    let mut variables = Variables::default();
    variables.insert("a", "{b}");
    variables.insert("b", "{a}");
    variables.insert("x", "value");
    match variables.render("pre {x} {open") {
        Err(TemplateError::Unclosed(text)) => assert_eq!(text, "pre {x} {open"),
        other => panic!("unexpected {other:?}"),
    }
    match variables.render("a {} b") {
        Err(TemplateError::Empty(text)) => assert_eq!(text, "a {} b"),
        other => panic!("unexpected {other:?}"),
    }
    match variables.render("{x}{nope}") {
        Err(TemplateError::Unknown(name)) => assert_eq!(name, "nope"),
        other => panic!("unexpected {other:?}"),
    }
    match variables.render("{a}") {
        Err(TemplateError::TooManyPasses(input)) => assert_eq!(input, "{a}"),
        other => panic!("unexpected {other:?}"),
    }
}

#[test]
fn text_without_placeholders_renders_to_itself() {
    let mut variables = Variables::default();
    variables.insert("x", "1");
    assert_eq!(variables.render("plain } text").unwrap(), "plain } text");
    assert_eq!(variables.render("").unwrap(), "");
}

#[test]
fn later_values_replace_earlier_ones() {
    let mut variables = Variables::default();
    variables.insert("x", "1");
    variables.insert("x", "2");
    assert_eq!(variables.render("{x}").unwrap(), "2");
}

#[test]
fn values_are_expanded_again_until_settled() {
    let mut variables = Variables::default();
    variables.insert("x", "{y}{y}");
    variables.insert("y", "z");
    assert_eq!(variables.render("<{x}>").unwrap(), "<zz>");
}
