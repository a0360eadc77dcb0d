use hermit::submodules::{
    has_submodule_gitdir_file, parse_gitdir_target_from_content, parse_gitmodules_paths,
    parse_gitmodules_paths_from_content, EntryDecision, SubmodulePruner,
};

const MARK: &str = "gitdir: ../.git/modules/foo\n";

fn pruner() -> SubmodulePruner {
    SubmodulePruner::new(b"/repo", Some("[submodule \"x\"]\n\tpath = deps/foo\n\tpath=\"./b c\"\n"))
}

#[test]
fn paths_of_gitmodules() {
    let content = "path = a=b\n path= \" c \" \nPATH = d\npath\nurl = path = e\npaths = f\npath =";
    assert_eq!(
        parse_gitmodules_paths_from_content(content),
        vec![b"a=b".to_vec(), b" c ".to_vec(), b"".to_vec()]
    );
    assert_eq!(parse_gitmodules_paths(Some("path = \u{fc}")), vec![b"\xc3\xbc".to_vec()]);
    assert!(parse_gitmodules_paths(None).is_empty());
}

#[test]
fn targets_of_git_files() {
    assert_eq!(parse_gitdir_target_from_content("gitdir:  x \n"), Some("x".to_string()));
    assert_eq!(parse_gitdir_target_from_content("a\n  gitdir: b\ngitdir: c"), Some("b".to_string()));
    assert_eq!(parse_gitdir_target_from_content("gitdir x"), None);
    assert_eq!(parse_gitdir_target_from_content(""), None);
}

#[test]
fn git_files_mark_submodules() {
    assert!(has_submodule_gitdir_file(Some(MARK)));
    assert!(has_submodule_gitdir_file(Some("gitdir: C:\\x\\.git\\modules\\foo")));
    assert!(has_submodule_gitdir_file(Some("gitdir: .git/modules/foo")));
    assert!(!has_submodule_gitdir_file(Some("gitdir: ../../.git/worktrees/x")));
    assert!(!has_submodule_gitdir_file(Some("x.git/modules/foo")));
    assert!(!has_submodule_gitdir_file(None));
}

#[test]
fn a_new_pruner_holds_root_and_paths() {
    let pruner = pruner();
    assert_eq!(pruner.root, b"/repo");
    assert_eq!(pruner.gitmodules_paths, vec![b"deps/foo".to_vec(), b"./b c".to_vec()]);
    assert!(SubmodulePruner::new(b".", None).gitmodules_paths.is_empty());
}

#[test]
fn declared_paths_are_compared_by_component() {
    let pruner = pruner();
    assert!(pruner.is_declared_submodule_path(b"/repo//deps/./foo/"));
    assert!(!pruner.is_declared_submodule_path(b"deps/foo"));
    assert!(!pruner.is_declared_submodule_path(b"/repository/deps/foo"));
    assert!(!pruner.is_declared_submodule_path(b"/repo/b c"));
    assert!(!pruner.is_declared_submodule_path(b"/repo"));
    let here = SubmodulePruner::new(b".", Some("path = deps/foo"));
    assert!(here.is_declared_submodule_path(b"./deps/foo"));
    assert!(!here.is_declared_submodule_path(b"deps/foo"));
}

#[test]
fn the_root_is_not_pruned_for_its_git_file() {
    let pruner = pruner();
    assert!(!pruner.is_submodule_dir(b"/repo/", Some(MARK)));
    assert!(pruner.is_submodule_dir(b"/repo/x", Some(MARK)));
    assert!(!pruner.is_submodule_dir(b"/repo/x", None));
    assert!(pruner.is_submodule_dir(b"/repo/deps/foo", None));
}

#[test]
fn decisions_before_the_git_file_hold_after_it() {
    let pruner = pruner();
    let cases: [(&[u8], bool, EntryDecision); 7] = [
        (b"/repo", true, EntryDecision::Keep),
        (b"/repo/x", true, EntryDecision::ReadGitFile),
        (b"/repo/x", false, EntryDecision::Keep),
        (b"/repo/deps/foo", true, EntryDecision::Prune),
        (b"/repo/deps/foo", false, EntryDecision::Keep),
        (b"/repo/target", true, EntryDecision::Prune),
        (b"/repo/target/a.sh", false, EntryDecision::Prune),
    ];
    for (path, is_dir, decision) in cases {
        assert_eq!(pruner.decide_entry(path, is_dir), decision);
        for git_file in [None, Some(MARK), Some("x")] {
            let expected = match decision {
                EntryDecision::Keep => true,
                EntryDecision::Prune => false,
                EntryDecision::ReadGitFile => !has_submodule_gitdir_file(git_file),
            };
            assert_eq!(pruner.keeps_entry(path, is_dir, git_file), expected);
        }
    }
}

#[test]
fn joined_gitmodules_give_the_paths_of_both() {
    let contents = ["", "path = a", "path = a\r", "[x]\npath = b\n", "path=a\n\npath=a", "\r\n"];
    for first in contents {
        for second in contents {
            let mut expected = parse_gitmodules_paths_from_content(first);
            expected.append(&mut parse_gitmodules_paths_from_content(second));
            let joined = format!("{}\n{}", first, second);
            assert_eq!(parse_gitmodules_paths_from_content(&joined), expected);
        }
    }
    for (key, value) in [(" path ", " \" x \" "), ("", "x"), ("paths", "x"), ("path", "")] {
        let found = parse_gitmodules_paths_from_content(&format!("{}={}", key, value));
        let expected: Vec<Vec<u8>> = if key.trim() == "path" {
            vec![value.trim().trim_matches('"').as_bytes().to_vec()]
        } else {
            vec![]
        };
        assert_eq!(found, expected);
    }
    assert!(parse_gitmodules_paths_from_content("path").is_empty());
}

#[test]
fn a_walk_reaches_a_file_through_kept_directories() {
    let pruner = pruner();
    let reaches = |steps: &[&str], marked: &str| {
        steps.iter().enumerate().all(|(i, step)| {
            let git_file = if *step == marked { Some(MARK) } else { None };
            pruner.keeps_entry(step.as_bytes(), i + 1 < steps.len(), git_file)
        })
    };
    assert!(reaches(&["/repo/.a", "/repo/.a/b", "/repo/.a/b/c.sh"], ""));
    assert!(!reaches(&["/repo/.a", "/repo/.a/b", "/repo/.a/b/c.sh"], "/repo/.a"));
    assert!(!reaches(&["/repo/.a", "/repo/.a/b", "/repo/.a/b/c.sh"], "/repo/.a/b"));
    assert!(!reaches(&["/repo/deps", "/repo/deps/foo", "/repo/deps/foo/c.sh"], ""));
    assert!(!reaches(&["/repo/vendor", "/repo/vendor/c.sh"], ""));
    assert!(!reaches(&["/repo/a", "/repo/a/target"], ""));
}
