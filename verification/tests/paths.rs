use std::path::{Component, Path};

use hermit::files::{has_extension, is_excluded};
use hermit::path::{
    are_paths_ordered, equal_ignoring_case, replace_byte, same_bytes, same_components,
    split_components,
    take_extension, take_file_name, take_file_name_text, PathComponent,
};

const PATHS: [&str; 40] = [
    "",
    ".",
    "..",
    "/",
    "//",
    "./",
    "./.",
    "/.",
    "/..",
    "a",
    "a/",
    "a//",
    "a/.",
    "a/./b",
    "a//b",
    "a/b",
    "a/../b",
    "./a",
    "././a",
    "../a",
    "/a",
    "/a/b.sh",
    "//a",
    ".bashrc",
    "..rc",
    "...",
    "a.",
    "a.b.c",
    ".a.b",
    "a/.b",
    "a.b/c",
    "install.SH",
    "x/Makefile",
    "x/y.mk/",
    "b",
    "a-b/c",
    "a/b/c",
    "ü.md",
    "node_modules/x",
    "src/node_modules",
];

fn expected(path: &str) -> Vec<String> {
    Path::new(path)
        .components()
        .map(|c| match c {
            Component::Normal(name) => format!("n {}", name.to_str().unwrap()),
            other => format!("{:?}", other),
        })
        .collect()
}

fn found(path: &str) -> Vec<String> {
    split_components(path.as_bytes())
        .into_iter()
        .map(|c| match c {
            PathComponent::Normal(name) => format!("n {}", String::from_utf8(name).unwrap()),
            other => format!("{:?}", other),
        })
        .collect()
}

#[test]
fn components_agree_with_the_standard_library() {
    for path in PATHS {
        assert_eq!(found(path), expected(path), "{}", path);
    }
}

#[test]
fn names_and_extensions_agree_with_the_standard_library() {
    for path in PATHS {
        let std_path = Path::new(path);
        assert_eq!(
            take_file_name(path.as_bytes()),
            std_path.file_name().map(|n| n.to_str().unwrap().as_bytes().to_vec()),
            "{}",
            path
        );
        assert_eq!(
            take_extension(path.as_bytes()),
            std_path.extension().map(|n| n.to_str().unwrap().as_bytes().to_vec()),
            "{}",
            path
        );
        assert_eq!(
            take_file_name_text(path.as_bytes()),
            std_path.file_name().and_then(|n| n.to_str()).unwrap_or("")
        );
        for extension in ["sh", "SH", "md", "mk", "b", ""] {
            assert_eq!(
                has_extension(path.as_bytes(), extension),
                std_path.extension().is_some_and(|e| e.eq_ignore_ascii_case(extension)),
                "{} {}",
                path,
                extension
            );
        }
    }
}

#[test]
fn order_and_equality_agree_with_the_standard_library() {
    for a in PATHS {
        for b in PATHS {
            let x = split_components(a.as_bytes());
            let y = split_components(b.as_bytes());
            assert_eq!(are_paths_ordered(&x, &y), Path::new(a) <= Path::new(b), "{} {}", a, b);
            assert_eq!(same_components(&x, &y), Path::new(a) == Path::new(b), "{} {}", a, b);
        }
    }
}

#[test]
fn order_of_paths_is_total_and_transitive() {
    let parts: Vec<Vec<PathComponent>> =
        PATHS.iter().map(|p| split_components(p.as_bytes())).collect();
    for a in &parts {
        for b in &parts {
            assert!(are_paths_ordered(a, b) || are_paths_ordered(b, a));
            for c in &parts {
                if are_paths_ordered(a, b) && are_paths_ordered(b, c) {
                    assert!(are_paths_ordered(a, c));
                }
            }
        }
    }
}

#[test]
fn a_name_that_is_not_utf8_has_no_text() {
    assert_eq!(take_file_name_text(b"dir/\xff.sh"), "");
    assert_eq!(take_file_name(b"dir/\xff.sh"), Some(b"\xff.sh".to_vec()));
    assert_eq!(take_extension(b"dir/\xff.sh"), Some(b"sh".to_vec()));
    assert_eq!(take_file_name_text(b"dir/\xe2\x9c\x97"), "✗");
}

#[test]
fn bytes_compare_with_and_without_case() {
    assert!(same_bytes(b"abc", b"abc"));
    assert!(!same_bytes(b"abc", b"abC"));
    assert!(equal_ignoring_case(b"aBc[", b"AbC["));
    assert!(!equal_ignoring_case(b"[", b"{"));
    assert!(!equal_ignoring_case(b"ab", b"abc"));
}

#[test]
fn excluded_directories() {
    for name in [
        "node_modules", ".git", "target", "dist", "build", "coverage", "vendor", ".next", ".nuxt",
        ".turbo", ".cache",
    ] {
        assert!(is_excluded(name.as_bytes()));
        assert!(is_excluded(format!("./a/{}/b.sh", name).as_bytes()));
        assert!(!is_excluded(format!("a/{}x", name).as_bytes()));
    }
    assert!(!is_excluded(b""));
    assert!(!is_excluded(b"/"));
    assert!(!is_excluded(b"Target"));
}

#[test]
fn everything_below_an_excluded_directory_is_excluded() {
    assert!(is_excluded(b"x/target"));
    for rest in ["", "a", "../b", "/c/./d"] {
        assert!(is_excluded(format!("x/target/{}", rest).as_bytes()));
    }
}

#[test]
fn other_separators_are_turned_into_slashes() {
    assert_eq!(replace_byte(br"C:\a\vendor/b.sh", b'\\', b'/'), b"C:/a/vendor/b.sh");
    assert_eq!(replace_byte(b"a/b", b'/', b'/'), b"a/b");
    assert!(is_excluded(&replace_byte(br"a\vendor\b.sh", b'\\', b'/')));
}
