use hermit::files::{
    comment_style_for_file, has_extension, is_makefile, is_shell_file, should_check_file,
};

fn style(path: &[u8]) -> Option<(&'static str, &'static str)> {
    comment_style_for_file(path).map(|s| (s.prefix, s.suffix))
}

const CHECKED: [&str; 16] = [
    "README.md",
    "docs/a.MD",
    "a.sh",
    "a.ksh",
    "a.csh",
    "a.Bash",
    "x/Makefile",
    "makefile",
    "GNUmakefile",
    "rules.MK",
    "Dockerfile",
    "Dockerfile.md.in",
    "x.dockerfile",
    ".github/workflows/ci.yml",
    "x/.github/workflows/ci.YAML",
    "x.github/workflowsy/ci.yml",
];

const UNCHECKED: [&str; 9] = [
    "",
    "a.txt",
    ".sh",
    "makefile.am",
    "x/ci.yml",
    ".github/ci.yml",
    ".github//workflows/ci.yml",
    "a.sh/..",
    "dockerfile",
];

#[test]
fn kinds_that_are_checked() {
    for path in CHECKED {
        assert!(should_check_file(path.as_bytes()), "{}", path);
    }
    for path in UNCHECKED {
        assert!(!should_check_file(path.as_bytes()), "{}", path);
    }
}

#[test]
fn every_checked_file_has_a_comment_style() {
    for path in CHECKED {
        assert!(style(path.as_bytes()).is_some(), "{}", path);
    }
}

#[test]
fn comment_styles() {
    assert_eq!(style(b"README.md"), Some(("<!--", "-->")));
    assert_eq!(style(b"Dockerfile.md"), Some(("<!--", "-->")));
    assert_eq!(style(b"a.sh"), Some(("#", "")));
    assert_eq!(style(b"Makefile"), Some(("#", "")));
    assert_eq!(style(b"x/ci.yaml"), Some(("#", "")));
    assert_eq!(style(b"Dockerfile.prod"), Some(("#", "")));
    assert_eq!(style(b"a.txt"), None);
    assert_eq!(style(b""), None);
}

#[test]
fn names_that_are_not_utf8() {
    assert!(should_check_file(b"\xff.sh"));
    assert!(!should_check_file(b"\xff.mk"));
    assert!(!should_check_file(b"Dockerfile\xff"));
    assert!(!should_check_file(b"\xff.dockerfile"));
    assert!(should_check_file(b"\xff/.github/workflows/\xff.yml"));
}

#[test]
fn single_kinds() {
    assert!(has_extension(b"a.tar.GZ", "gz"));
    assert!(!has_extension(b"a.tar.gz", "tar"));
    assert!(!has_extension(b"sh", "sh"));
    assert!(is_shell_file(b"x.fish"));
    assert!(!is_shell_file(b"x.shx"));
    assert!(is_makefile("a.mk"));
    assert!(!is_makefile("MAKEFILE"));
    assert!(!is_makefile(""));
}
