//! The rules: what is reported of a line.

use vstd::prelude::*;

use crate::grammar::{addresses, names_raw_file};
use crate::patterns::{
    mentions_download, regex_is_match, Pattern, Patterns, CURL_EVAL, CURL_PIPE_INTERPRETER,
    CURL_PIPE_SHELL, RAW_GITHUB_FULL_COMMIT, REMOTE_URL,
};
use crate::text::{
    before_first, contains_text, take_before, texts, to_chars, to_text, trim, trimmed,
};

verus! {

/// How bad a violation is.
#[derive(Debug, Clone, Copy, PartialEq, Eq, Structural)]
pub enum Severity {
    Error,
    Warning,
}

/// What a rule reports of a line.
#[derive(Debug)]
pub struct Violation {
    pub line_num: usize,
    pub message: String,
    pub line_content: String,
    pub rule_id: Option<String>,
    pub severity: Severity,
}

/// A `Violation` with its texts as characters.
pub struct Finding {
    pub line_num: int,
    pub message: Seq<char>,
    pub line_content: Seq<char>,
    pub rule_id: Option<Seq<char>>,
    pub severity: Severity,
}

impl View for Violation {
    type V = Finding;

    open spec fn view(&self) -> Finding {
        Finding {
            line_num: self.line_num as int,
            message: self.message@,
            line_content: self.line_content@,
            rule_id: match self.rule_id {
                Some(rule) => Some(rule@),
                None => None,
            },
            severity: self.severity,
        }
    }
}

/// The findings that some violations are.
pub open spec fn findings(violations: Seq<Violation>) -> Seq<Finding> {
    violations.map_values(|violation: Violation| violation@)
}

/// The rule on downloads that are piped into a shell.
pub const PIPE_TO_SHELL: &'static str = "pipe-to-shell";

/// The rule on downloads that are piped into a scripting interpreter.
pub const PIPE_TO_INTERPRETER: &'static str = "pipe-to-interpreter";

/// The rule on downloads that are evaluated.
pub const EVAL_CURL: &'static str = "eval-curl";

/// What the rule `pipe-to-shell` says.
pub const PIPE_TO_SHELL_MESSAGE: &'static str =
    "curl/wget piped directly to shell; use a pinned and verified installer instead.";

/// What the rule `pipe-to-interpreter` says.
pub const PIPE_TO_INTERPRETER_MESSAGE: &'static str =
    "curl/wget piped directly to a scripting interpreter; use a pinned and verified installer instead.";

/// What the rule `eval-curl` says.
pub const EVAL_CURL_MESSAGE: &'static str =
    "curl/wget inside eval — eval executes in current shell context, not a subshell. Prefer downloading and inspecting first.";

/// The finding of a rule on a line. It shows the line without white space around it.
pub open spec fn finding(
    line: Seq<char>,
    line_num: int,
    rule: Seq<char>,
    message: Seq<char>,
    severity: Severity,
) -> Finding {
    Finding { line_num, message, line_content: trimmed(line), rule_id: Some(rule), severity }
}

/// What the rule `pipe-to-shell` reports of a line that pipes a download into a shell,
/// or does not, from an address that is pinned, or is not.
pub open spec fn pipe_to_shell_findings(
    line: Seq<char>,
    line_num: int,
    piped: bool,
    pinned: bool,
) -> Seq<Finding> {
    if piped && !pinned {
        seq![
            finding(line, line_num, PIPE_TO_SHELL@, PIPE_TO_SHELL_MESSAGE@, Severity::Error),
        ]
    } else {
        seq![]
    }
}

/// What the rule `pipe-to-interpreter` reports of a line that pipes a download into an
/// interpreter, or does not.
pub open spec fn pipe_to_interpreter_findings(
    line: Seq<char>,
    line_num: int,
    piped: bool,
) -> Seq<Finding> {
    if piped {
        seq![
            finding(
                line,
                line_num,
                PIPE_TO_INTERPRETER@,
                PIPE_TO_INTERPRETER_MESSAGE@,
                Severity::Error,
            ),
        ]
    } else {
        seq![]
    }
}

/// What the rule `eval-curl` reports of a line that evaluates a download, or does not.
pub open spec fn eval_curl_findings(
    line: Seq<char>,
    line_num: int,
    evaluated: bool,
) -> Seq<Finding> {
    if evaluated {
        seq![finding(line, line_num, EVAL_CURL@, EVAL_CURL_MESSAGE@, Severity::Warning)]
    } else {
        seq![]
    }
}

/// What the patterns say of a line.
#[derive(Debug, Clone, Copy)]
pub struct RuleHits {
    pub piped_to_shell: bool,
    pub pinned: bool,
    pub piped_to_interpreter: bool,
    pub evaluated: bool,
}

/// What the rules report of a line of which the patterns say `hits`.
pub open spec fn findings_for(line: Seq<char>, line_num: int, hits: RuleHits) -> Seq<Finding> {
    pipe_to_shell_findings(line, line_num, hits.piped_to_shell, hits.pinned)
        + pipe_to_interpreter_findings(line, line_num, hits.piped_to_interpreter)
        + eval_curl_findings(line, line_num, hits.evaluated)
}

/// The remote addresses before the first `|` of a line.
pub open spec fn urls_before_pipe(line: Seq<char>) -> Seq<Seq<char>> {
    addresses(before_first(line, '|'))
}

/// Before its first `|`, the line has one remote address, and that is a raw file on GitHub
/// at a full commit hash.
pub open spec fn pinned_raw_github_url(line: Seq<char>) -> bool {
    &&& urls_before_pipe(line).len() == 1
    &&& names_raw_file(urls_before_pipe(line)[0])
}

/// What the patterns say of a line.
pub open spec fn rule_hits(line: Seq<char>) -> RuleHits {
    RuleHits {
        piped_to_shell: regex_is_match(CURL_PIPE_SHELL@, line),
        pinned: pinned_raw_github_url(line),
        piped_to_interpreter: regex_is_match(CURL_PIPE_INTERPRETER@, line),
        evaluated: regex_is_match(CURL_EVAL@, line),
    }
}

/// What the rules report of a line.
pub open spec fn line_findings(line: Seq<char>, line_num: int) -> Seq<Finding> {
    findings_for(line, line_num, rule_hits(line))
}

/// The violation of a rule on a line.
fn violation(
    line: &str,
    line_num: usize,
    rule: &str,
    message: &str,
    severity: Severity,
) -> (v: Violation)
    ensures
        v@ == finding(line@, line_num as int, rule@, message@, severity),
{
    Violation {
        line_num,
        message: message.to_string(),
        line_content: to_text(trim(to_chars(line).as_slice())),
        rule_id: Some(rule.to_string()),
        severity,
    }
}

/// What the rule `pipe-to-shell` reports of a line.
pub fn report_pipe_to_shell(line: &str, line_num: usize, piped: bool, pinned: bool) -> (violations:
    Vec<Violation>)
    ensures
        findings(violations@) == pipe_to_shell_findings(line@, line_num as int, piped, pinned),
{
    let mut violations: Vec<Violation> = Vec::new();
    if piped && !pinned {
        violations.push(
            violation(line, line_num, PIPE_TO_SHELL, PIPE_TO_SHELL_MESSAGE, Severity::Error),
        );
    }
    violations
}

/// What the rule `pipe-to-interpreter` reports of a line.
pub fn report_pipe_to_interpreter(line: &str, line_num: usize, piped: bool) -> (violations: Vec<
    Violation,
>)
    ensures
        findings(violations@) == pipe_to_interpreter_findings(line@, line_num as int, piped),
{
    let mut violations: Vec<Violation> = Vec::new();
    if piped {
        violations.push(
            violation(
                line,
                line_num,
                PIPE_TO_INTERPRETER,
                PIPE_TO_INTERPRETER_MESSAGE,
                Severity::Error,
            ),
        );
    }
    violations
}

/// What the rule `eval-curl` reports of a line.
pub fn report_eval_curl(line: &str, line_num: usize, evaluated: bool) -> (violations: Vec<
    Violation,
>)
    ensures
        findings(violations@) == eval_curl_findings(line@, line_num as int, evaluated),
{
    let mut violations: Vec<Violation> = Vec::new();
    if evaluated {
        violations.push(
            violation(line, line_num, EVAL_CURL, EVAL_CURL_MESSAGE, Severity::Warning),
        );
    }
    violations
}

/// What the rules report of a line of which the patterns say `hits`.
pub fn report_hits(line: &str, line_num: usize, hits: RuleHits) -> (violations: Vec<Violation>)
    ensures
        findings(violations@) == findings_for(line@, line_num as int, hits),
{
    let mut violations = report_pipe_to_shell(line, line_num, hits.piped_to_shell, hits.pinned);
    let mut more = report_pipe_to_interpreter(line, line_num, hits.piped_to_interpreter);
    let mut last = report_eval_curl(line, line_num, hits.evaluated);
    let ghost parts = (violations@, more@, last@);
    violations.append(&mut more);
    violations.append(&mut last);
    proof {
        assert(findings(parts.0 + parts.1 + parts.2) =~= findings(parts.0) + findings(parts.1)
            + findings(parts.2));
    }
    violations
}

/// The only one of some addresses, if there is one and no other.
pub fn only_url(urls: Vec<String>) -> (r: Option<String>)
    ensures
        match r {
            Some(url) => texts(urls@) == seq![url@],
            None => urls@.len() != 1,
        },
{
    let mut urls = urls;
    let ghost all = urls@;
    if urls.len() == 1 {
        let url = urls.pop();
        proof {
            assert(texts(all) =~= seq![all[0]@]);
        }
        url
    } else {
        None
    }
}

/// Whether the only address before the first `|` of a line is a raw file on GitHub at a
/// full commit hash. The patterns are `REMOTE_URL` and `RAW_GITHUB_FULL_COMMIT`.
fn test_pinned(line: &str, remote_url: &Pattern, raw_github_full_commit: &Pattern) -> (r: bool)
    requires
        remote_url@ == REMOTE_URL@,
        raw_github_full_commit@ == RAW_GITHUB_FULL_COMMIT@,
    ensures
        r == pinned_raw_github_url(line@),
{
    let before_pipe = to_text(take_before(to_chars(line).as_slice(), '|'));
    match only_url(remote_url.find_iter(before_pipe.as_str())) {
        Some(url) => raw_github_full_commit.is_match(url.as_str()),
        None => false,
    }
}

/// What the patterns say of a line.
pub fn match_rules(line: &str, patterns: &Patterns) -> (hits: RuleHits)
    ensures
        hits == rule_hits(line@),
        !mentions_download(line@) ==> !hits.piped_to_shell && !hits.piped_to_interpreter
            && !hits.evaluated,
        !line@.contains('|') ==> !hits.piped_to_shell && !hits.piped_to_interpreter,
{
    RuleHits {
        piped_to_shell: patterns.curl_pipe_shell().is_match(line),
        pinned: test_pinned(line, patterns.remote_url(), patterns.raw_github_full_commit()),
        piped_to_interpreter: patterns.curl_pipe_interpreter().is_match(line),
        evaluated: patterns.curl_eval().is_match(line),
    }
}

/// Whether the only address before the first `|` of a line is a raw file on GitHub at a
/// full commit hash.
pub fn is_pinned_raw_github_url(line: &str) -> (r: bool)
    ensures
        r == pinned_raw_github_url(line@),
{
    test_pinned(line, &Pattern::compile(REMOTE_URL), &Pattern::compile(RAW_GITHUB_FULL_COMMIT))
}

/// Reports a line that pipes a download into a shell, except from a pinned address.
pub fn check_pipe_to_shell(line: &str, line_num: usize) -> (violations: Vec<Violation>)
    ensures
        findings(violations@) == pipe_to_shell_findings(
            line@,
            line_num as int,
            regex_is_match(CURL_PIPE_SHELL@, line@),
            pinned_raw_github_url(line@),
        ),
        findings(violations@).len() > 0 ==> mentions_download(line@) && line@.contains('|'),
{
    let piped = Pattern::compile(CURL_PIPE_SHELL).is_match(line);
    let pinned = is_pinned_raw_github_url(line);
    report_pipe_to_shell(line, line_num, piped, pinned)
}

/// Reports a line that pipes a download into a scripting interpreter.
pub fn check_pipe_to_interpreter(line: &str, line_num: usize) -> (violations: Vec<Violation>)
    ensures
        findings(violations@) == pipe_to_interpreter_findings(
            line@,
            line_num as int,
            regex_is_match(CURL_PIPE_INTERPRETER@, line@),
        ),
        findings(violations@).len() > 0 ==> mentions_download(line@) && line@.contains('|'),
{
    let piped = Pattern::compile(CURL_PIPE_INTERPRETER).is_match(line);
    report_pipe_to_interpreter(line, line_num, piped)
}

/// Reports a line that evaluates a download.
pub fn check_eval_curl(line: &str, line_num: usize) -> (violations: Vec<Violation>)
    ensures
        findings(violations@) == eval_curl_findings(
            line@,
            line_num as int,
            regex_is_match(CURL_EVAL@, line@),
        ),
        findings(violations@).len() > 0 ==> mentions_download(line@) && contains_text(line@, "eval"@),
{
    let evaluated = Pattern::compile(CURL_EVAL).is_match(line);
    report_eval_curl(line, line_num, evaluated)
}

} // verus!
