use scip_cli::inheritance::{
    check_cycle, deep_merge, merge_chain, parse_yaml, resolve_step, take_extends, InheritanceError,
    YamlError, YamlKey, YamlValue,
};

fn parse(text: &str) -> YamlValue {
    parse_yaml(text).unwrap()
}

fn get<'a>(value: &'a YamlValue, key: &str) -> Option<&'a YamlValue> {
    match value {
        YamlValue::Mapping(entries) => entries
            .iter()
            .find(|entry| matches!(&entry.key, YamlKey::Text(text) if text == key))
            .map(|entry| &entry.value),
        _ => None,
    }
}

fn text<'a>(value: Option<&'a YamlValue>) -> Option<&'a str> {
    match value {
        Some(YamlValue::Text(text)) => Some(text.as_str()),
        _ => None,
    }
}

const BASE: &str = r#"
version: 1
variables:
  build_dir: build
  base_only: present
commands:
  - name: Base
    run: base
"#;

const CHILD: &str = r#"
extends: base.yaml
name: demo
description: inherited
repository:
  url: https://example.com/demo.git
variables:
  build_dir: custom
commands:
  - name: Child
    run: child
index:
  compilation_database: "{repo_dir}/custom/compile_commands.json"
"#;

#[test]
fn resolves_inherited_maps_and_replaces_lists() {
    let (child, extends) = take_extends(parse(CHILD), "child.yaml").unwrap();
    assert_eq!(extends.as_deref(), Some("base.yaml"));
    let (base, none) = take_extends(parse(BASE), "base.yaml").unwrap();
    assert!(none.is_none());

    let profile = merge_chain(vec![child, base]);
    let variables = get(&profile, "variables");
    assert_eq!(text(variables.and_then(|v| get(v, "build_dir"))), Some("custom"));
    assert_eq!(text(variables.and_then(|v| get(v, "base_only"))), Some("present"));
    match get(&profile, "commands") {
        Some(YamlValue::Other(serde_yaml::Value::Sequence(commands))) => {
            assert_eq!(commands.len(), 1);
            assert_eq!(commands[0]["name"], serde_yaml::Value::from("Child"));
        }
        _ => panic!("commands are not a list"),
    }
    assert!(get(&profile, "extends").is_none());
    assert_eq!(text(get(&profile, "name")), Some("demo"));
}

#[test]
fn rejects_inheritance_cycles() {
    let mut stack: Vec<String> = Vec::new();
    assert!(check_cycle(&stack, "first.yaml").is_ok());
    stack.push("first.yaml".to_owned());
    let (_, next) = take_extends(parse("extends: second.yaml\n"), "first.yaml").unwrap();
    assert_eq!(next.as_deref(), Some("second.yaml"));
    assert!(check_cycle(&stack, "second.yaml").is_ok());
    stack.push("second.yaml".to_owned());
    let (_, next) = take_extends(parse("extends: first.yaml\n"), "second.yaml").unwrap();
    assert_eq!(next.as_deref(), Some("first.yaml"));
    match check_cycle(&stack, "first.yaml") {
        Err(InheritanceError::Cycle { chain }) => {
            assert_eq!(chain, "first.yaml -> second.yaml -> first.yaml")
        }
        _ => panic!("cycle not detected"),
    }
}

#[test]
fn merged_keys_keep_base_order_and_append_new_ones() {
    let mut base = parse("a: 1\nb:\n  x: 1\n  y: 2\nc: 3\n");
    deep_merge(&mut base, parse("b:\n  y: 20\n  z: 30\nd: 4\n"));
    let keys: Vec<String> = match &base {
        YamlValue::Mapping(entries) => entries
            .iter()
            .map(|entry| match &entry.key {
                YamlKey::Text(text) => text.clone(),
                YamlKey::Other(text) => text.clone(),
            })
            .collect(),
        _ => panic!("not a mapping"),
    };
    assert_eq!(keys, vec!["a", "b", "c", "d"]);
    let b = get(&base, "b").unwrap();
    match (get(b, "x"), get(b, "y"), get(b, "z")) {
        (
            Some(YamlValue::Other(x)),
            Some(YamlValue::Other(y)),
            Some(YamlValue::Other(z)),
        ) => {
            assert_eq!(x, &serde_yaml::Value::from(1));
            assert_eq!(y, &serde_yaml::Value::from(20));
            assert_eq!(z, &serde_yaml::Value::from(30));
        }
        _ => panic!("nested mapping not merged"),
    }
}

#[test]
fn a_child_value_that_is_not_a_mapping_replaces_the_base() {
    let mut base = parse("a:\n  x: 1\n");
    deep_merge(&mut base, parse("a: plain\n"));
    assert_eq!(text(get(&base, "a")), Some("plain"));

    let mut whole = parse("a: 1\n");
    deep_merge(&mut whole, parse("just text"));
    assert!(matches!(whole, YamlValue::Text(ref t) if t == "just text"));
}

#[test]
fn extends_must_be_a_path_string() {
    match take_extends(parse("extends:\n  nested: value\n"), "bad.yaml") {
        Err(InheritanceError::ExtendsNotText { path }) => assert_eq!(path, "bad.yaml"),
        _ => panic!("mapping accepted as extends"),
    }
    assert!(take_extends(parse("extends: 3\n"), "bad.yaml").is_err());
}

#[test]
fn a_tagged_extends_string_is_read_through_its_tag() {
    let (_, extends) = take_extends(parse("extends: !path base.yaml\n"), "child.yaml").unwrap();
    assert_eq!(extends.as_deref(), Some("base.yaml"));
    assert!(take_extends(parse("extends: !path 3\n"), "child.yaml").is_err());
}

#[test]
fn removing_extends_moves_the_last_entry_into_its_place() {
    let (doc, _) = take_extends(parse("extends: base.yaml\na: 1\nb: 2\n"), "c.yaml").unwrap();
    let keys: Vec<String> = match &doc {
        YamlValue::Mapping(entries) => entries
            .iter()
            .map(|entry| match &entry.key {
                YamlKey::Text(text) => text.clone(),
                YamlKey::Other(text) => text.clone(),
            })
            .collect(),
        _ => panic!("not a mapping"),
    };
    assert_eq!(keys, vec!["b", "a"]);
}

#[test]
fn parse_yaml_opens_mappings_strings_and_tags() {
    let doc = parse("a: x\nb: !t y\n3: z\nc:\n  d: e\nn: 1\n");
    match &doc {
        YamlValue::Mapping(entries) => {
            assert_eq!(entries.len(), 5);
            assert!(matches!(&entries[2].key, YamlKey::Other(k) if k == "3\n"));
            assert!(matches!(&entries[4].value, YamlValue::Other(serde_yaml::Value::Number(_))));
        }
        _ => panic!("expected a mapping"),
    }
    assert_eq!(text(get(&doc, "a")), Some("x"));
    match get(&doc, "b") {
        Some(YamlValue::Tagged(tag, inner)) => {
            assert_eq!(tag, "!t");
            assert!(matches!(inner.as_ref(), YamlValue::Text(t) if t == "y"));
        }
        _ => panic!("expected a tagged value"),
    }
    assert_eq!(text(get(get(&doc, "c").unwrap(), "d")), Some("e"));
}

#[test]
fn parse_yaml_refuses_text_that_is_not_yaml() {
    assert!(matches!(parse_yaml("a: [1, 2\n"), Err(YamlError::Syntax(_))));
}

#[test]
fn resolve_step_refuses_a_document_already_being_resolved() {
    let stack = vec!["/p/a.yaml".to_string(), "/p/b.yaml".to_string()];
    match resolve_step(&stack, "/p/a.yaml", "a.yaml", "not: [yaml") {
        Err(InheritanceError::Cycle { chain }) => {
            assert_eq!(chain, "/p/a.yaml -> /p/b.yaml -> /p/a.yaml")
        }
        Err(other) => panic!("unexpected {other:?}"),
        Ok(_) => panic!("unexpected success"),
    }
}

#[test]
fn resolve_step_reports_text_that_is_not_yaml() {
    match resolve_step(&Vec::new(), "/p/a.yaml", "a.yaml", "not: [yaml") {
        Err(InheritanceError::Parse { path, error: YamlError::Syntax(_) }) => assert_eq!(path, "a.yaml"),
        Err(other) => panic!("unexpected {other:?}"),
        Ok(_) => panic!("unexpected success"),
    }
}

#[test]
fn resolve_step_reads_the_document_and_its_base() {
    let (doc, extends) = resolve_step(&Vec::new(), "/p/child.yaml", "child.yaml", CHILD).unwrap();
    assert_eq!(extends.as_deref(), Some("base.yaml"));
    assert!(get(&doc, "extends").is_none());
    assert_eq!(text(get(&doc, "name")), Some("demo"));
    let (_, none) = resolve_step(&Vec::new(), "/p/base.yaml", "base.yaml", BASE).unwrap();
    assert!(none.is_none());
}
