use scip_cli::config::{CommandSpec, IndexSpec, Profile, Repository};
use scip_cli::generator::{
    absolute, cache_key_text, cached_index_is_current, checkout_changed, GenerateOptions, Generator,
    GeneratorError,
};

fn profile() -> Profile {
    Profile {
        version: 1,
        name: "demo".to_owned(),
        description: String::new(),
        repository: Repository {
            url: "https://example.com/{name}.git".to_owned(),
            directory: None,
            depth: 1,
            revision: Some("v1".to_owned()),
        },
        variables: vec![("build_dir".to_owned(), "{repo_dir}/build".to_owned())],
        tools: Vec::new(),
        path_prepend: vec!["{tools_dir}/bin".to_owned()],
        commands: vec![CommandSpec {
            name: "Build".to_owned(),
            run: "make -j{jobs}".to_owned(),
            cwd: "{build_dir}".to_owned(),
            env: vec![("CC".to_owned(), "clang".to_owned())],
        }],
        index: IndexSpec {
            compilation_database: "build/compile_commands.json".to_owned(),
            output: "{output_dir}/{name}.scip".to_owned(),
            arguments: vec!["--verbose".to_owned()],
        },
    }
}

fn options() -> GenerateOptions {
    GenerateOptions {
        output_dir: "out".to_owned(),
        work_dir: "/work".to_owned(),
        tools_dir: "tools".to_owned(),
        jobs: 8,
        index_jobs: 2,
        scip_clang: None,
        dry_run: false,
        skip_build: false,
    }
}

#[test]
fn directories_are_made_absolute_and_variables_set() {
    let g = Generator::new(profile(), options(), "/home/me");
    assert_eq!(g.options.output_dir, "/home/me/out");
    assert_eq!(g.options.work_dir, "/work");
    assert_eq!(g.repo_dir, "/work/demo");
    assert_eq!(g.cache_path(), "/home/me/out/.demo.scip-cache");
    assert_eq!(g.output_path().unwrap(), "/home/me/out/demo.scip");
    assert_eq!(g.compilation_database().unwrap(), "/work/demo/build/compile_commands.json");
    let (cwd, script) = g.command_script(&profile().commands[0]).unwrap();
    assert_eq!(cwd, "/work/demo/build");
    assert_eq!(script, "make -j8");
}

#[test]
fn clone_steps_follow_the_checkout_state() {
    let g = Generator::new(profile(), options(), "/home/me");
    let fresh = g.clone_steps(false).unwrap();
    assert_eq!(fresh.len(), 3);
    assert_eq!(fresh[0].program, "git");
    assert_eq!(
        fresh[0].args,
        vec!["clone", "--depth", "1", "https://example.com/demo.git", "/work/demo"]
    );
    assert_eq!(fresh[1].args, vec!["fetch", "--depth", "1", "origin", "v1"]);
    assert_eq!(fresh[2].args, vec!["checkout", "--detach", "FETCH_HEAD"]);
    assert_eq!(fresh[2].cwd.as_deref(), Some("/work/demo"));

    let mut unpinned = profile();
    unpinned.repository.revision = None;
    let g = Generator::new(unpinned, options(), "/home/me");
    assert_eq!(g.clone_steps(false).unwrap().len(), 1);
    let reused = g.clone_steps(true).unwrap();
    assert_eq!(reused.len(), 2);
    assert_eq!(reused[0].args, vec!["fetch", "--depth", "1", "origin", "HEAD"]);
}

#[test]
fn indexer_arguments_start_with_paths_and_jobs() {
    let g = Generator::new(profile(), options(), "/home/me");
    let args = g.indexer_arguments("/db.json", "/out.scip").unwrap();
    assert_eq!(
        args,
        vec![
            "--compdb-path=/db.json",
            "--index-output-path=/out.scip",
            "--jobs=2",
            "--verbose"
        ]
    );
    assert_eq!(g.path_prepend_entries().unwrap(), vec!["/home/me/tools/bin"]);
    let env = g.command_environment(&profile().commands[0]).unwrap();
    assert_eq!(env, vec![("CC".to_owned(), "clang".to_owned())]);
}

#[test]
fn an_output_outside_the_output_directory_is_refused() {
    let mut p = profile();
    p.index.output = "/elsewhere/x.scip".to_owned();
    let g = Generator::new(p, options(), "/home/me");
    match g.output_path() {
        Err(GeneratorError::OutputOutsideOutputDir(path)) => assert_eq!(path, "/elsewhere/x.scip"),
        _ => panic!("outside output accepted"),
    }
    let mut p = profile();
    p.index.output = "{missing}.scip".to_owned();
    let g = Generator::new(p, options(), "/home/me");
    assert!(matches!(g.output_path(), Err(GeneratorError::Template(_))));
}

#[test]
fn search_path_and_ccache_settings() {
    let mut g = Generator::new(profile(), options(), "/home/me");
    assert_eq!(g.program_search_path(None, &vec!["/usr/bin".to_owned()]), None);
    g.path_entries = vec!["/opt/bin".to_owned()];
    assert_eq!(
        g.program_search_path(Some("/usr/lib/ccache".to_owned()), &vec!["/usr/bin".to_owned()]),
        Some(vec!["/usr/lib/ccache".to_owned(), "/opt/bin".to_owned(), "/usr/bin".to_owned()])
    );
    let env = g.ccache_environment(None);
    assert_eq!(env[0], ("CCACHE_DIR".to_owned(), "/home/me/tools/ccache".to_owned()));
    assert_eq!(env[1], ("CCACHE_BASEDIR".to_owned(), "/work/demo".to_owned()));
}

#[test]
fn cached_indexes_are_reused_only_when_current() {
    let key = cache_key_text("abc", "{}");
    assert_eq!(key, "scip-clang=v0.4.0\ncommit=abc\nprofile={}\n");
    let stored = Some(key.clone());
    assert!(cached_index_is_current(false, true, 4096, &stored, &key, true));
    assert!(!cached_index_is_current(true, true, 4096, &stored, &key, false));
    assert!(!cached_index_is_current(false, true, 100, &stored, &key, false));
    assert!(!cached_index_is_current(false, true, 4096, &Some("old".to_owned()), &key, false));
    assert!(cached_index_is_current(false, true, 4096, &None, &key, false));
    assert!(!cached_index_is_current(false, true, 4096, &None, &key, true));
    assert!(checkout_changed(false, &None, &None));
    assert!(!checkout_changed(true, &Some("a".to_owned()), &Some("a".to_owned())));
    assert!(checkout_changed(true, &Some("a".to_owned()), &Some("b".to_owned())));
    assert_eq!(absolute("rel/x", "/base"), "/base/rel/x");
    assert_eq!(absolute("/abs", "/base"), "/abs");
}

#[test]
fn an_occupied_checkout_path_without_git_is_refused() {
    let g = Generator::new(profile(), options(), "/home/me");
    assert!(matches!(g.existing_checkout(true, true), Ok(true)));
    assert!(matches!(g.existing_checkout(false, false), Ok(false)));
    match g.existing_checkout(false, true) {
        Err(GeneratorError::CheckoutNotGit(path)) => assert_eq!(path, "/work/demo"),
        other => panic!("unexpected {other:?}"),
    }
    assert!(matches!(g.existing_tool("/t/x", true, true), Ok(true)));
    assert!(matches!(g.existing_tool("/t/x", false, false), Ok(false)));
    match g.existing_tool("/t/x", false, true) {
        Err(GeneratorError::ToolNotGit(path)) => assert_eq!(path, "/t/x"),
        other => panic!("unexpected {other:?}"),
    }
}
