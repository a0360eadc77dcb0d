use hermit::submodules::{
    gitdir_target_is_submodule, parse_gitmodules_paths_from_content, SubmodulePruner,
};

#[test]
fn test_parse_gitmodules_paths() {
    let content = r#"
[submodule "vendor/foo"]
    path = vendor/foo
    url = https://example.com/foo.git
[submodule "deps/bar"]
    path = "deps/bar"
    url = https://example.com/bar.git
"#;

    assert_eq!(
        parse_gitmodules_paths_from_content(content),
        vec!["vendor/foo".as_bytes().to_vec(), "deps/bar".as_bytes().to_vec()]
    );
}

#[test]
fn test_declared_submodule_path_detected() {
    let pruner = SubmodulePruner {
        root: "/repo".as_bytes().to_vec(),
        gitmodules_paths: vec!["deps/foo".as_bytes().to_vec()],
    };

    assert!(pruner.is_declared_submodule_path("/repo/deps/foo".as_bytes()));
    assert!(!pruner.is_declared_submodule_path("/repo/deps/foo/src".as_bytes()));
    assert!(!pruner.is_declared_submodule_path("/repo/deps/bar".as_bytes()));
}

#[test]
fn test_gitdir_target_submodule_detection() {
    assert!(gitdir_target_is_submodule("../.git/modules/deps/foo"));
    assert!(gitdir_target_is_submodule("/repo/.git/modules/deps/foo"));
    assert!(!gitdir_target_is_submodule("/repo/.git/worktrees/feature"));
    assert!(!gitdir_target_is_submodule("/repo/.git"));
}
