use scip_cli::config::{
    default_depth, default_output, default_repo_cwd, find_profile, is_profile_file, sort_profiles,
    CommandSpec, ConfigError, GitTool, IndexSpec, Profile, Repository,
};

fn profile(name: &str) -> Profile {
    Profile {
        version: 1,
        name: name.to_owned(),
        description: String::new(),
        repository: Repository {
            url: "https://example.com/demo.git".to_owned(),
            directory: None,
            depth: default_depth(),
            revision: None,
        },
        variables: Vec::new(),
        tools: Vec::new(),
        path_prepend: Vec::new(),
        commands: vec![CommandSpec {
            name: "Build".to_owned(),
            run: "make".to_owned(),
            cwd: default_repo_cwd(),
            env: Vec::new(),
        }],
        index: IndexSpec {
            compilation_database: "{repo_dir}/build/compile_commands.json".to_owned(),
            output: default_output(),
            arguments: Vec::new(),
        },
    }
}

#[test]
fn defaults_match_the_profile_format() {
    assert_eq!(default_depth(), 1);
    assert_eq!(default_repo_cwd(), "{repo_dir}");
    assert_eq!(default_output(), "{output_dir}/{name}.scip");
}

#[test]
fn a_complete_profile_is_valid() {
    assert!(profile("demo").validate("demo.yaml").is_ok());
}

#[test]
fn each_rule_of_a_profile_is_checked() {
    let mut p = profile("demo");
    p.version = 2;
    match p.validate("p.yaml") {
        Err(ConfigError::UnsupportedVersion { path, version }) => {
            assert_eq!(path, "p.yaml");
            assert_eq!(version, 2);
        }
        _ => panic!("version 2 accepted"),
    }

    let p = profile("bad name");
    assert!(matches!(p.validate("p.yaml"), Err(ConfigError::InvalidName { .. })));

    let mut p = profile("demo");
    p.repository.url = "   ".to_owned();
    assert!(matches!(p.validate("p.yaml"), Err(ConfigError::EmptyRepositoryUrl { .. })));

    let mut p = profile("demo");
    p.repository.depth = 0;
    assert!(matches!(p.validate("p.yaml"), Err(ConfigError::ZeroCloneDepth { .. })));

    let mut p = profile("demo");
    p.repository.directory = Some("../up".to_owned());
    match p.validate("p.yaml") {
        Err(ConfigError::UnsafePath { label, value }) => {
            assert_eq!(label, "repository directory");
            assert_eq!(value, "../up");
        }
        _ => panic!("unsafe directory accepted"),
    }

    let mut p = profile("demo");
    p.tools.push(GitTool {
        name: "tool".to_owned(),
        repository: " ".to_owned(),
        destination: "tool".to_owned(),
        depth: 1,
    });
    assert!(matches!(p.validate("p.yaml"), Err(ConfigError::InvalidTool { .. })));

    let mut p = profile("demo");
    p.variables.push(("jobs".to_owned(), "4".to_owned()));
    match p.validate("p.yaml") {
        Err(ConfigError::ReservedVariable { key }) => assert_eq!(key, "jobs"),
        _ => panic!("reserved variable accepted"),
    }

    let mut p = profile("demo");
    p.index.compilation_database = "\t".to_owned();
    assert!(matches!(p.validate("p.yaml"), Err(ConfigError::NoCompilationDatabase { .. })));

    let mut p = profile("demo");
    p.index.output = "{output_dir}/../x.scip".to_owned();
    assert!(matches!(p.validate("p.yaml"), Err(ConfigError::OutputEscapes { .. })));
}

#[test]
fn profiles_are_found_by_name() {
    let profiles = vec![
        ("b.yaml".to_owned(), profile("beta")),
        ("a.yaml".to_owned(), profile("alpha")),
    ];
    let sorted = sort_profiles(profiles);
    assert_eq!(sorted[0].1.name, "alpha");
    let (path, found) = find_profile("config", sorted, "beta").unwrap();
    assert_eq!(path, "b.yaml");
    assert_eq!(found.name, "beta");

    let profiles = vec![("a.yaml".to_owned(), profile("alpha"))];
    match find_profile("config", profiles, "gamma") {
        Err(ConfigError::NoSuchProfile { name, dir }) => {
            assert_eq!(name, "gamma");
            assert_eq!(dir, "config");
        }
        _ => panic!("missing profile found"),
    }
    assert!(matches!(
        find_profile("config", Vec::new(), "no/slash"),
        Err(ConfigError::InvalidName { .. })
    ));
}

#[test]
fn profile_files_have_a_yaml_extension() {
    assert!(is_profile_file("zlib.yaml"));
    assert!(is_profile_file("zlib.yml"));
    assert!(!is_profile_file(".yaml"));
    assert!(!is_profile_file("zlib.yaml.bak"));
    assert!(!is_profile_file("README.md"));
}
