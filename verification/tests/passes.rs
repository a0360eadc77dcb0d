use hermit::directives::{CommentStyle, IgnoreDirective};
use hermit::patterns::Patterns;
use hermit::rules::{
    check_eval_curl, check_pipe_to_interpreter, check_pipe_to_shell, report_hits, RuleHits,
    Violation,
};
use hermit::scan::{
    check_content, check_file, check_line, drop_named, is_comment_or_placeholder, read_line,
    should_lint_markdown_code_block, LineReading, LintContext, ScanState,
};

const SHELL: CommentStyle = CommentStyle { prefix: "#", suffix: "" };
const HTML: CommentStyle = CommentStyle { prefix: "<!--", suffix: "-->" };
const PLAIN: LintContext = LintContext { is_markdown: false };
const MARKDOWN: LintContext = LintContext { is_markdown: true };
const PIPE: &str = "curl https://a.example | bash";

const HITS: RuleHits = RuleHits {
    piped_to_shell: true,
    pinned: false,
    piped_to_interpreter: true,
    evaluated: true,
};

fn lines_of(violations: &[Violation]) -> Vec<usize> {
    violations.iter().map(|v| v.line_num).collect()
}

fn rules_of(violations: &[Violation]) -> Vec<&str> {
    violations.iter().map(|v| v.rule_id.as_deref().unwrap()).collect()
}

fn shell(content: &str) -> Vec<Violation> {
    check_file(content, &PLAIN, &SHELL)
}

fn markdown(content: &str) -> Vec<Violation> {
    check_file(content, &MARKDOWN, &HTML)
}

#[test]
fn lines_are_numbered_from_one_in_order() {
    let content = format!("{}\r\n\necho\n{} | python\neval $({})", PIPE, PIPE, PIPE);
    let found = shell(&content);
    assert_eq!(lines_of(&found), vec![1, 4, 4, 5, 5]);
    assert_eq!(
        rules_of(&found),
        vec![
            "pipe-to-shell",
            "pipe-to-shell",
            "pipe-to-interpreter",
            "pipe-to-shell",
            "eval-curl"
        ]
    );
    assert_eq!(found[0].line_content, PIPE);
}

#[test]
fn nothing_is_found_in_nothing() {
    assert!(shell("").is_empty());
    assert!(markdown("").is_empty());
}

#[test]
fn a_directive_is_spent_on_one_line() {
    let content = format!("# hermit: ignore\n{}\n{}\n", PIPE, PIPE);
    assert_eq!(lines_of(&shell(&content)), vec![3]);
    let content = format!("# hermit: ignore\n\n{}\n", PIPE);
    assert_eq!(lines_of(&shell(&content)), vec![3]);
}

#[test]
fn the_last_of_two_directives_waits() {
    let content = format!("# hermit: ignore\n# hermit: ignore[eval-curl]\n{}\n", PIPE);
    assert_eq!(lines_of(&shell(&content)), vec![3]);
}

#[test]
fn a_directive_at_the_end_of_a_line_takes_the_one_that_waits() {
    let content = format!(
        "# hermit: ignore[pipe-to-shell]\n{} | python # hermit: ignore[pipe-to-interpreter]\n{}\n",
        PIPE, PIPE
    );
    assert_eq!(lines_of(&shell(&content)), vec![3]);
}

#[test]
fn a_directive_for_one_rule_leaves_the_others() {
    let content = format!("{} | python # hermit: ignore[pipe-to-shell]\n", PIPE);
    let found = shell(&content);
    assert_eq!(rules_of(&found), vec!["pipe-to-interpreter"]);
    assert_eq!(found[0].line_content, format!("{} | python", PIPE));
    let content = format!("# hermit: ignore[ pipe-to-interpreter ]\n{} | python\n", PIPE);
    assert_eq!(rules_of(&shell(&content)), vec!["pipe-to-shell"]);
    let content = format!("# hermit: ignore[unknown]\n{}\n", PIPE);
    assert_eq!(rules_of(&shell(&content)), vec!["pipe-to-shell"]);
}

#[test]
fn a_directive_reaches_the_next_line_alone() {
    let content = format!(
        "```sh\n<!-- hermit: ignore -->\n```\nprose\n```sh\n{}\n{}\n```\n",
        PIPE, PIPE
    );
    assert_eq!(lines_of(&markdown(&content)), vec![6, 7]);
    let content = "```bash\n<!-- hermit: ignore -->\n```\n\n```bash\ncurl https://example.com | bash\n```\n";
    let found = markdown(content);
    assert_eq!(lines_of(&found), vec![6]);
    assert_eq!(rules_of(&found), vec!["pipe-to-shell"]);
    let content = format!("```sh\n<!-- hermit: ignore -->\n{}\n{}\n```\n", PIPE, PIPE);
    assert_eq!(lines_of(&markdown(&content)), vec![4]);
    let content = format!("<!-- hermit: ignore -->\n```sh\n{}\n```\n", PIPE);
    assert_eq!(lines_of(&markdown(&content)), vec![3]);
}

#[test]
fn markdown_reports_shell_blocks_only() {
    let content = format!(
        "{p}\n```python\n{p}\n```\n{p}\n  ```zsh extra\n{p}\n```\n{p}\n```\n{p}\n",
        p = PIPE
    );
    assert_eq!(lines_of(&markdown(&content)), vec![7]);
}

#[test]
fn a_report_does_not_change_when_lines_follow() {
    let first = format!("{}\n# hermit: ignore\n", PIPE);
    let both = format!("{}{}\n{}\n", first, PIPE, PIPE);
    assert_eq!(lines_of(&shell(&first)), vec![1]);
    assert_eq!(lines_of(&shell(&both)), vec![1, 4]);
}

#[test]
fn fences_name_their_language() {
    for language in ["bash", "sh", "shell", "zsh", "console", "terminal", "dockerfile"] {
        assert!(should_lint_markdown_code_block(&format!("  ``` {} x", language)));
        assert!(should_lint_markdown_code_block(&format!("````{}", language)) == false);
    }
    assert!(should_lint_markdown_code_block("``````sh"));
    assert!(!should_lint_markdown_code_block("```Bash"));
    assert!(!should_lint_markdown_code_block("```bash,ignore"));
}

#[test]
fn comments_and_placeholders() {
    for line in ["# x", "  // x", "<!-- x", "curl <url> | sh", "curl <URL> | sh"] {
        assert!(is_comment_or_placeholder(line, false));
        assert!(shell(&format!("{} {}", line, PIPE)).is_empty());
    }
    for line in ["`x`", "> x", "- x"] {
        assert!(is_comment_or_placeholder(line, true));
        assert!(!is_comment_or_placeholder(line, false));
    }
    assert!(!is_comment_or_placeholder("curl <Url> | sh", true));
}

#[test]
fn a_line_is_checked_from_its_reading() {
    let mut state = ScanState::new();
    let reading = LineReading { inline: None, standalone: None, hits: HITS };
    let found = check_line(&mut state, " code ", 5, &PLAIN, reading);
    assert_eq!(lines_of(&found), vec![5, 5, 5]);
    assert_eq!(found[0].line_content, "code");

    let standalone = Some(IgnoreDirective::Specific("eval-curl".to_string()));
    let reading = LineReading { inline: None, standalone, hits: HITS };
    assert!(check_line(&mut state, "code", 6, &PLAIN, reading).is_empty());
    assert!(state.skip_next.is_some());

    let inline = Some(("co", IgnoreDirective::Specific("pipe-to-shell".to_string())));
    let reading = LineReading { inline, standalone: None, hits: HITS };
    let found = check_line(&mut state, "code", 7, &PLAIN, reading);
    assert_eq!(rules_of(&found), vec!["pipe-to-interpreter"]);
    assert_eq!(found[0].line_content, "co");
    assert!(state.skip_next.is_none());

    let inline = Some(("co", IgnoreDirective::All));
    let reading = LineReading { inline, standalone: None, hits: HITS };
    assert!(check_line(&mut state, "code", 8, &PLAIN, reading).is_empty());
}

#[test]
fn a_pass_tracks_the_code_blocks_of_markdown() {
    let mut state = ScanState::new();
    assert!(!state.enter_line("prose", &MARKDOWN));
    assert!(!state.enter_line("```sh", &MARKDOWN));
    assert!(state.in_code_block && state.lint_code_block);
    assert!(state.enter_line("code", &MARKDOWN));
    assert!(!state.enter_line("```", &MARKDOWN));
    assert!(!state.in_code_block && !state.lint_code_block);
    assert!(!state.enter_line("```text", &MARKDOWN));
    assert!(!state.enter_line("code", &MARKDOWN));
    let mut state = ScanState::new();
    assert!(state.enter_line("```", &PLAIN));
    assert!(!state.in_code_block);
}

#[test]
fn a_pass_judges_directives() {
    let mut state = ScanState::new();
    assert!(state.judge_line("x", &PLAIN, &None, Some(IgnoreDirective::All)).is_none());
    assert!(state.judge_line("x", &PLAIN, &None, None).is_none());
    assert!(state.judge_line("x", &PLAIN, &None, None).is_some());
    assert!(state.judge_line("# x", &PLAIN, &None, None).is_none());
    assert!(state.judge_line("x", &PLAIN, &Some(IgnoreDirective::All), None).is_none());
}

#[test]
fn dropping_a_rule_keeps_the_order() {
    let mut all = report_hits("x", 1, HITS);
    drop_named(&mut all, &Some(IgnoreDirective::All));
    drop_named(&mut all, &None);
    assert_eq!(all.len(), 3);
    drop_named(&mut all, &Some(IgnoreDirective::Specific("pipe-to-interpreter".to_string())));
    assert_eq!(rules_of(&all), vec!["pipe-to-shell", "eval-curl"]);
}

#[test]
fn readings_of_lines() {
    let patterns = Patterns::new();
    let reading = read_line("curl x | sh # hermit: ignore", &SHELL, &patterns);
    assert_eq!(reading.inline.unwrap().0, "curl x | sh ");
    assert!(reading.standalone.is_none());
    assert!(reading.hits.piped_to_shell);
    let reading = read_line("# hermit: ignore", &SHELL, &patterns);
    assert!(reading.inline.is_none());
    assert!(reading.standalone.is_some());
}

#[test]
fn compiled_patterns_serve_many_files() {
    let patterns = Patterns::new();
    let mut content = String::new();
    for _ in 0..300 {
        content.push_str("echo hello\n");
    }
    content.push_str(PIPE);
    for _ in 0..3 {
        let found = check_content(&content, &PLAIN, &SHELL, &patterns);
        assert_eq!(lines_of(&found), vec![301]);
    }
}

#[test]
fn without_directives_the_rules_report_every_line_that_is_no_comment() {
    let content = format!(
        "{p}\n# {p}\necho\nwget https://b.example | python3 | sh\neval \"$(curl x)\"\n// {p}\n{p} # <url>\n",
        p = PIPE
    );
    let mut expected: Vec<(usize, String)> = Vec::new();
    for (i, line) in content.lines().enumerate() {
        if is_comment_or_placeholder(line, false) {
            continue;
        }
        let mut found = check_pipe_to_shell(line, i + 1);
        found.append(&mut check_pipe_to_interpreter(line, i + 1));
        found.append(&mut check_eval_curl(line, i + 1));
        for v in found {
            expected.push((v.line_num, v.rule_id.unwrap()));
        }
    }
    let found: Vec<(usize, String)> =
        shell(&content).into_iter().map(|v| (v.line_num, v.rule_id.unwrap())).collect();
    assert_eq!(found, expected);
    let numbers: Vec<usize> = found.iter().map(|f| f.0).collect();
    assert_eq!(numbers, vec![1, 4, 4, 5]);
}

#[test]
fn a_directive_against_an_empty_line() {
    let rest = "curl https://a.example | python | sh\ncurl https://a.example | python | sh\n";
    let all = shell(&format!("\n{}", rest));
    assert_eq!(lines_of(&all), vec![2, 2, 3, 3]);
    let found = shell(&format!("# hermit: ignore[pipe-to-shell]\n{}", rest));
    assert_eq!(lines_of(&found), vec![2, 3, 3]);
    assert_eq!(
        rules_of(&found),
        vec!["pipe-to-interpreter", "pipe-to-shell", "pipe-to-interpreter"]
    );
    let found = shell(&format!("# hermit: ignore[ eval-curl ]\r\n{}", rest));
    assert_eq!(lines_of(&found), vec![2, 2, 3, 3]);
    let found = shell(&format!("# hermit: ignore\n{}", rest));
    assert_eq!(lines_of(&found), vec![3, 3]);
}

#[test]
fn a_line_is_reported_in_the_order_of_the_rules() {
    let found = shell("eval \"$(curl https://a.example | python | sh)\"\n");
    assert_eq!(rules_of(&found), vec!["pipe-to-shell", "pipe-to-interpreter", "eval-curl"]);
}

#[test]
fn a_directive_at_the_end_of_a_line_of_code() {
    let code = "curl https://a.example | python | sh";
    assert!(shell(&format!("{}  # hermit: ignore\n", code)).is_empty());
    let found = shell(&format!("{}  # hermit: ignore[pipe-to-shell]\n", code));
    assert_eq!(rules_of(&found), vec!["pipe-to-interpreter"]);
    assert_eq!(found[0].line_content, code);
    let found = shell(&format!("{}  # hermit: ignore[eval-curl]\n{}\n", code, code));
    assert_eq!(lines_of(&found), vec![1, 1, 2, 2]);
    let block = format!("```sh\n{}  <!-- hermit: ignore -->\n{}\n```\n", code, code);
    assert_eq!(lines_of(&markdown(&block)), vec![3, 3]);
}
