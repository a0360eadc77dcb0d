use hermit::directives::CommentStyle;
use hermit::scan::{check_file, should_lint_markdown_code_block, LintContext};

fn shell_comment_style() -> CommentStyle {
    CommentStyle {
        prefix: "#",
        suffix: "",
    }
}

fn markdown_comment_style() -> CommentStyle {
    CommentStyle {
        prefix: "<!--",
        suffix: "-->",
    }
}

fn plain_context() -> LintContext {
    LintContext { is_markdown: false }
}

fn markdown_context() -> LintContext {
    LintContext { is_markdown: true }
}

#[test]
fn test_markdown_bash_block_curl_violation() {
    let content = r#"
# Install

```bash
curl -sSL https://example.com | bash
```
"#;
    let violations = check_file(content, &markdown_context(), &markdown_comment_style());
    assert_eq!(violations.len(), 1);
    assert_eq!(violations[0].rule_id.as_deref(), Some("pipe-to-shell"));
}

#[test]
fn test_markdown_sh_block_curl_violation() {
    let content = r#"
```sh
wget -qO- https://example.com | sh
```
"#;
    let violations = check_file(content, &markdown_context(), &markdown_comment_style());
    assert_eq!(violations.len(), 1);
}

#[test]
fn test_markdown_unlabeled_block_skipped() {
    let content = r#"
```
curl https://example.com | bash
```
"#;
    let violations = check_file(content, &markdown_context(), &markdown_comment_style());
    assert_eq!(violations.len(), 0);
}

#[test]
fn test_markdown_text_block_skipped() {
    let content = r#"
```text
curl https://example.com | bash
```
"#;
    let violations = check_file(content, &markdown_context(), &markdown_comment_style());
    assert_eq!(violations.len(), 0);
}

#[test]
fn test_markdown_console_block_curl_violation() {
    let content = r#"
```console
$ curl -sSL https://example.com | bash
```
"#;
    let violations = check_file(content, &markdown_context(), &markdown_comment_style());
    assert_eq!(violations.len(), 1);
}

#[test]
fn test_markdown_example_outside_code_block_not_linted() {
    let content = r#"
## Don't do this

- `curl https://example.com | bash`
"#;
    let violations = check_file(content, &markdown_context(), &markdown_comment_style());
    // Inline code and list items are skipped by is_comment_or_placeholder
    assert_eq!(violations.len(), 0);
}

#[test]
fn test_markdown_table_example_not_linted() {
    let content = r#"
| Rule | Example |
| --- | --- |
| pipe-to-shell | `curl https://example.com | bash` |
"#;
    let violations = check_file(content, &markdown_context(), &markdown_comment_style());
    assert_eq!(violations.len(), 0);
}

#[test]
fn test_ignore_directive_skips_next_line() {
    let content = "# hermit: ignore\ncurl https://example.com | bash\n";
    let violations = check_file(content, &plain_context(), &shell_comment_style());
    assert_eq!(violations.len(), 0);
}

#[test]
fn test_ignore_directive_specific_rule() {
    let content = "# hermit: ignore[pipe-to-shell]\ncurl https://example.com | bash\n";
    let violations = check_file(content, &plain_context(), &shell_comment_style());
    assert_eq!(violations.len(), 0);
}

#[test]
fn test_ignore_directive_only_specific_rule() {
    let content = "# hermit: ignore[pipe-to-shell]\ncurl https://example.com | python\n";
    let violations = check_file(content, &plain_context(), &shell_comment_style());
    // pipe-to-shell skipped, but pipe-to-interpreter still fires
    assert_eq!(violations.len(), 1);
    assert_eq!(
        violations[0].rule_id.as_deref(),
        Some("pipe-to-interpreter")
    );
}

#[test]
fn test_inline_ignore_end_of_line() {
    let content = "curl https://example.com | bash  # hermit: ignore\n";
    let violations = check_file(content, &plain_context(), &shell_comment_style());
    assert_eq!(violations.len(), 0);
}

#[test]
fn test_inline_ignore_only_that_line() {
    let content =
        "curl https://example.com | bash  # hermit: ignore\ncurl https://example.com | bash\n";
    let violations = check_file(content, &plain_context(), &shell_comment_style());
    assert_eq!(violations.len(), 1);
}

#[test]
fn test_inline_ignore_markdown_html_comment() {
    let content = "curl https://example.com | bash  <!-- hermit: ignore -->\n";
    let violations = check_file(content, &plain_context(), &markdown_comment_style());
    assert_eq!(violations.len(), 0);
}

#[test]
fn test_inline_ignore_specific_rule() {
    let content = "curl https://example.com | bash  # hermit: ignore[pipe-to-shell]\ncurl https://example.com | python\n";
    let violations = check_file(content, &plain_context(), &shell_comment_style());
    // First line's pipe-to-shell ignored, second line's pipe-to-interpreter fires
    assert_eq!(violations.len(), 1);
    assert_eq!(
        violations[0].rule_id.as_deref(),
        Some("pipe-to-interpreter")
    );
}

#[test]
fn test_shell_comment_skipped() {
    let content = "# curl https://example.com | bash\necho hello\n";
    let violations = check_file(content, &plain_context(), &shell_comment_style());
    assert_eq!(violations.len(), 0);
}

#[test]
fn test_shell_dockerfile_run_curl_violation() {
    let content = "RUN curl -sSL https://example.com | bash\n";
    let violations = check_file(content, &plain_context(), &shell_comment_style());
    assert_eq!(violations.len(), 1);
}

#[test]
fn test_shell_curl_no_pipe_allowed() {
    let content = "curl -o /tmp/install.sh https://example.com && bash /tmp/install.sh\n";
    let violations = check_file(content, &plain_context(), &shell_comment_style());
    assert_eq!(violations.len(), 0);
}

#[test]
fn test_should_lint_markdown_code_block_for_shell_languages() {
    assert!(should_lint_markdown_code_block("```bash"));
    assert!(should_lint_markdown_code_block("```sh"));
    assert!(should_lint_markdown_code_block("```console"));
    assert!(should_lint_markdown_code_block("```dockerfile"));
    assert!(!should_lint_markdown_code_block("```"));
    assert!(!should_lint_markdown_code_block("```text"));
}

#[test]
fn test_gha_run_step_curl_violation() {
    let content = r#"
jobs:
  deploy:
    steps:
      - run: curl -sSL https://example.com | bash
"#;
    let violations = check_file(content, &plain_context(), &shell_comment_style());
    assert_eq!(violations.len(), 1);
}
