use hermit::files::should_check_file;

#[test]
fn test_shell_extensions_checked() {
    for file_name in ["install.sh", "install.bash", "install.zsh", "install.fish"] {
        assert!(should_check_file(file_name.as_bytes()));
    }
}

#[test]
fn test_makefiles_checked() {
    for file_name in ["Makefile", "makefile", "GNUmakefile", "rules.mk"] {
        assert!(should_check_file(file_name.as_bytes()));
    }
}

#[test]
fn test_dockerfiles_checked() {
    for file_name in ["Dockerfile", "Dockerfile.prod", "dev.dockerfile"] {
        assert!(should_check_file(file_name.as_bytes()));
    }
}

#[test]
fn test_github_workflows_checked() {
    assert!(should_check_file(".github/workflows/ci.yml".as_bytes()));
}
