use hermit::directives::{
    directive_from_rule, find_trailing_comment, is_ignore_directive, read_comment,
    split_inline_ignore, CommentStyle, IgnoreDirective,
};

const SHELL: CommentStyle = CommentStyle { prefix: "#", suffix: "" };
const HTML: CommentStyle = CommentStyle { prefix: "<!--", suffix: "-->" };

fn rule(directive: Option<IgnoreDirective>) -> Option<Option<String>> {
    directive.map(|d| match d {
        IgnoreDirective::All => None,
        IgnoreDirective::Specific(rule) => Some(rule),
    })
}

#[test]
fn comments_are_read_between_their_ends() {
    assert_eq!(read_comment("  #  hello  ", &SHELL), Some("hello".to_string()));
    assert_eq!(read_comment("x # hello", &SHELL), None);
    assert_eq!(read_comment("<!-- hello -->", &HTML), Some("hello".to_string()));
    assert_eq!(read_comment("<!-- hello", &HTML), None);
    assert_eq!(read_comment("<!-->", &HTML), None);
    assert_eq!(read_comment("<!---->", &HTML), Some(String::new()));
}

#[test]
fn rules_of_directives() {
    assert_eq!(rule(Some(directive_from_rule(None))), Some(None));
    assert_eq!(rule(Some(directive_from_rule(Some("  ")))), Some(None));
    assert_eq!(rule(Some(directive_from_rule(Some(" a b ")))), Some(Some("a b".to_string())));
}

#[test]
fn directives_that_stand_alone() {
    assert_eq!(rule(is_ignore_directive("# hermit: ignore", &SHELL)), Some(None));
    assert_eq!(rule(is_ignore_directive("#hermit:ignore", &SHELL)), Some(None));
    assert_eq!(rule(is_ignore_directive("# hermit: ignore[]", &SHELL)), Some(None));
    assert_eq!(
        rule(is_ignore_directive("# see: hermit: ignore [ eval-curl ] because", &SHELL)),
        Some(Some("eval-curl".to_string()))
    );
    assert_eq!(rule(is_ignore_directive("# hermit ignore", &SHELL)), None);
    assert_eq!(rule(is_ignore_directive("curl # hermit: ignore", &SHELL)), None);
    assert_eq!(rule(is_ignore_directive("<!-- hermit: ignore -->", &HTML)), Some(None));
    assert_eq!(rule(is_ignore_directive("# hermit: ignore", &HTML)), None);
}

#[test]
fn trailing_comments() {
    assert_eq!(find_trailing_comment("ü x # hermit: ignore", &SHELL, "ü x # "), Some(4));
    assert_eq!(find_trailing_comment("a # b # c", &SHELL, "a # b # "), Some(6));
    assert_eq!(find_trailing_comment("# x", &SHELL, "# "), None);
    assert_eq!(find_trailing_comment("a x", &SHELL, "a "), None);
    assert_eq!(find_trailing_comment("  <!-- x", &HTML, "  <!-- "), None);
}

#[test]
fn directives_at_the_end_of_a_line() {
    let (code, directive) = split_inline_ignore("ü | sh  # hermit: ignore[x]", &SHELL).unwrap();
    assert_eq!(code, "ü | sh  ");
    assert_eq!(rule(Some(directive)), Some(Some("x".to_string())));
    assert!(split_inline_ignore("ü | sh  # nothing", &SHELL).is_none());
    assert!(split_inline_ignore("ü | sh  hermit: ignore", &SHELL).is_none());
    assert!(split_inline_ignore("  # hermit: ignore", &SHELL).is_none());
    let (code, directive) = split_inline_ignore("x <!-- hermit: ignore -->", &HTML).unwrap();
    assert_eq!(code, "x ");
    assert_eq!(rule(Some(directive)), Some(None));
    assert!(split_inline_ignore("x <!-- hermit: ignore", &HTML).is_none());
}

#[test]
fn no_line_is_both_kinds_of_directive() {
    for line in ["# hermit: ignore", "x # hermit: ignore", " # # hermit: ignore"] {
        assert_ne!(
            is_ignore_directive(line, &SHELL).is_some(),
            split_inline_ignore(line, &SHELL).is_some()
        );
    }
}

#[test]
fn lines_without_the_keyword_hold_no_directive() {
    for line in ["# ignore[pipe-to-shell]", "curl x | sh # ignore", "# hermit ignore", "", "#"] {
        assert_eq!(rule(is_ignore_directive(line, &SHELL)), None);
        assert!(split_inline_ignore(line, &SHELL).is_none());
    }
}

#[test]
fn directives_in_their_usual_form_are_read_as_written() {
    for name in ["pipe-to-shell", "a b", "ü["] {
        let expected = Some(Some(name.to_string()));
        let line = format!("# hermit: ignore[{}]", name);
        assert_eq!(rule(is_ignore_directive(&line, &SHELL)), expected);
        let line = format!("<!-- hermit: ignore[ {} ] -->", name);
        assert_eq!(rule(is_ignore_directive(&line, &HTML)), expected);
    }
}
