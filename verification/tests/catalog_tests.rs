use scip_cli::site::{
    new_catalog, should_prune, slug_repo_url, update_catalog, validate_route_segment, SiteError,
};

#[test]
fn other_projects_keep_their_commits_and_projects_are_sorted() {
    let catalog = new_catalog();
    let catalog = update_catalog(catalog, "zeta", "https://z.example/z", "z1", "Z", 1, 1).unwrap();
    let catalog = update_catalog(catalog, "alpha", "https://a.example/a", "a1", "A", 2, 2).unwrap();
    let catalog = update_catalog(catalog, "alpha", "https://a.example/a", "a2", "A", 3, 3).unwrap();
    let slugs: Vec<&str> = catalog.projects.iter().map(|p| p.slug.as_str()).collect();
    assert_eq!(slugs, vec!["alpha", "zeta"]);
    assert_eq!(catalog.projects[0].commits.len(), 1);
    assert_eq!(catalog.projects[0].commits[0].commit, "a2");
    assert_eq!(catalog.projects[1].commits[0].commit, "z1");
    assert_eq!(catalog.version, 1);
}

#[test]
fn a_slug_of_another_repository_is_refused() {
    let catalog = update_catalog(new_catalog(), "repo", "https://one.example/repo", "c", "T", 1, 1).unwrap();
    match update_catalog(catalog, "repo", "https://two.example/repo", "c", "T", 1, 1) {
        Err(SiteError::SlugCollision { repo_url, existing, slug }) => {
            assert_eq!(repo_url, "https://two.example/repo");
            assert_eq!(existing, "https://one.example/repo");
            assert_eq!(slug, "repo");
        }
        _ => panic!("collision not reported"),
    }
}

#[test]
fn slugs_are_route_segments() {
    for url in [
        "https://Example.com/--Weird__Name--/",
        "  git@host.example:Team/Project.git.git  ",
        "ssh://user@host.example:2222/a/b",
        "plain words here",
    ] {
        let slug = slug_repo_url(url).unwrap();
        assert!(validate_route_segment(&slug, "slug").is_ok());
        assert!(!slug.starts_with('-') && !slug.ends_with('-') && !slug.contains("--"));
    }
    assert_eq!(slug_repo_url("https://Example.com/--Weird__Name--/").unwrap(), "example-com-weird-name");
    assert_eq!(slug_repo_url("plain words here").unwrap(), "plain-words-here");
}

#[test]
fn slug_errors() {
    assert!(matches!(slug_repo_url("   "), Err(SiteError::EmptyRepoUrl)));
    assert!(matches!(slug_repo_url(".git/"), Err(SiteError::EmptyRepoUrl)));
    assert!(matches!(slug_repo_url("/.git"), Err(SiteError::NoSlugCharacters)));
    assert!(matches!(slug_repo_url("-- __ --"), Err(SiteError::NoSlugCharacters)));
    assert!(matches!(slug_repo_url("ÄÖÜ"), Err(SiteError::NoSlugCharacters)));
}

#[test]
fn route_segments_reject_other_characters() {
    assert!(validate_route_segment("abc-1.2_x", "commit").is_ok());
    match validate_route_segment("a/b", "commit") {
        Err(SiteError::InvalidRouteSegment { name }) => assert_eq!(name, "commit"),
        _ => panic!("slash accepted"),
    }
    assert!(validate_route_segment("", "commit").is_err());
}

#[test]
fn pruning_spares_the_current_commit_hidden_entries_and_files() {
    assert!(should_prune(true, "old", "current"));
    assert!(!should_prune(true, "current", "current"));
    assert!(!should_prune(true, ".current.staging-1", "current"));
    assert!(!should_prune(false, "old", "current"));
}
