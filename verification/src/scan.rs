//! The pass over a file's lines: code fences, directives and rules.

use vstd::prelude::*;

use crate::directives::{
    cut_inline_ignore, directive_view, ignore_directive, inline_ignore, read_ignore_directive,
    CommentStyle, Directive, IgnoreDirective,
};
use crate::guarantees::{lemma_rules_well_formed, lemma_step_reports_rules};
use crate::patterns::{mentions_download, Patterns};
use crate::rules::{
    findings, findings_for, match_rules, report_hits, rule_hits, Finding, RuleHits, Violation,
};
use crate::text::{
    contains, contains_text, first_word, lemma_part_contains, same_text, split_lines, starts_with,
    strip_leading, take_word, text_lines, texts, to_chars, trim, trimmed, without_leading,
};

verus! {

/// What the lines of a file are read as.
#[derive(Debug, Clone, Copy)]
pub struct LintContext {
    pub is_markdown: bool,
}

/// How far a pass has come: whether it is in a fenced code block, whether that block is
/// checked, and the directive that waits for the next line.
#[derive(Debug)]
pub struct ScanState {
    pub in_code_block: bool,
    pub lint_code_block: bool,
    pub skip_next: Option<IgnoreDirective>,
}

/// A `ScanState` with the rule of its directive as characters.
pub struct Progress {
    pub in_code_block: bool,
    pub lint_code_block: bool,
    pub skip_next: Option<Directive>,
}

impl View for ScanState {
    type V = Progress;

    open spec fn view(&self) -> Progress {
        Progress {
            in_code_block: self.in_code_block,
            lint_code_block: self.lint_code_block,
            skip_next: directive_view(self.skip_next),
        }
    }
}

/// What the patterns say of a line.
pub struct LineFacts {
    /// The code before a directive at the line's end, and that directive.
    pub inline: Option<(Seq<char>, Directive)>,
    /// The directive that the line consists of.
    pub standalone: Option<Directive>,
    /// What the rules' patterns say of the line's code.
    pub hits: RuleHits,
}

/// The line opens or closes a fenced code block.
pub open spec fn is_fence(line: Seq<char>) -> bool {
    "```"@.is_prefix_of(trimmed(line))
}

/// The languages whose fenced code blocks are checked.
pub open spec fn is_shell_language(language: Seq<char>) -> bool {
    ||| language == "bash"@
    ||| language == "sh"@
    ||| language == "shell"@
    ||| language == "zsh"@
    ||| language == "console"@
    ||| language == "terminal"@
    ||| language == "dockerfile"@
}

/// The language that a fence names: the first word behind its backquotes.
pub open spec fn fence_language(fence: Seq<char>) -> Seq<char> {
    first_word(trimmed(without_leading(trimmed(fence), "```"@)))
}

/// The line is a comment, shows a placeholder for an address, or, in Markdown, is inline
/// code, a quotation or a list item.
pub open spec fn comment_or_placeholder(line: Seq<char>, is_markdown: bool) -> bool {
    let content = trimmed(line);
    ||| "#"@.is_prefix_of(content)
    ||| "//"@.is_prefix_of(content)
    ||| "<!--"@.is_prefix_of(content)
    ||| contains_text(content, "<url>"@)
    ||| contains_text(content, "<URL>"@)
    ||| is_markdown && ("`"@.is_prefix_of(content) || ">"@.is_prefix_of(content)
        || "-"@.is_prefix_of(content))
}

/// How a pass goes on at a line, and whether the line is one that is checked. A fence in
/// Markdown is not. Neither is a line in a code block that is not checked, nor, in
/// Markdown, a line outside the code blocks. A directive waits for the next line alone, so
/// none waits behind a line that is not checked.
pub open spec fn entered(progress: Progress, line: Seq<char>, is_markdown: bool) -> (
    Progress,
    bool,
) {
    if is_markdown && is_fence(line) {
        (
            Progress {
                in_code_block: !progress.in_code_block,
                lint_code_block: !progress.in_code_block && is_shell_language(
                    fence_language(line),
                ),
                skip_next: None,
            },
            false,
        )
    } else {
        let checked = if progress.in_code_block {
            progress.lint_code_block
        } else {
            !is_markdown
        };
        (
            if checked {
                progress
            } else {
                Progress { skip_next: None, ..progress }
            },
            checked,
        )
    }
}

/// How a pass goes on behind the directives of a line that is checked, and whether the
/// rules apply to the line: `None` where they do not, else the directive that was waiting
/// for the line. A directive that stands alone waits for the next line. Any other line
/// takes the directive that was waiting.
pub open spec fn judged(
    progress: Progress,
    code: Seq<char>,
    is_markdown: bool,
    inline: Option<Directive>,
    standalone: Option<Directive>,
) -> (Progress, Option<Option<Directive>>) {
    let waiting = progress.skip_next;
    if inline is None && standalone is Some {
        (Progress { skip_next: standalone, ..progress }, None)
    } else if waiting == Some(Directive::All) || inline == Some(Directive::All)
        || comment_or_placeholder(code, is_markdown) {
        (Progress { skip_next: None, ..progress }, None)
    } else {
        (Progress { skip_next: None, ..progress }, Some(waiting))
    }
}

/// The directive names the rule.
pub open spec fn names_rule(directive: Option<Directive>, rule: Option<Seq<char>>) -> bool {
    match directive {
        Some(Directive::Specific(named)) => rule == Some(named),
        _ => false,
    }
}

/// The findings of the rules that a directive does not name.
pub open spec fn unnamed(all: Seq<Finding>, directive: Option<Directive>) -> Seq<Finding> {
    all.filter(|f: Finding| !names_rule(directive, f.rule_id))
}

/// The code of a line: what stands before the directive at its end, or the whole line.
pub open spec fn code_of(line: Seq<char>, facts: LineFacts) -> Seq<char> {
    match facts.inline {
        Some((code, _)) => code,
        None => line,
    }
}

/// The directive at the end of a line.
pub open spec fn inline_directive(facts: LineFacts) -> Option<Directive> {
    match facts.inline {
        Some((_, directive)) => Some(directive),
        None => None,
    }
}

/// How a pass goes on behind a line of which the patterns say `facts`, and what is
/// reported of the line.
pub open spec fn step(
    progress: Progress,
    line: Seq<char>,
    line_num: int,
    is_markdown: bool,
    facts: LineFacts,
) -> (Progress, Seq<Finding>) {
    let (at_line, checked) = entered(progress, line, is_markdown);
    let code = code_of(line, facts);
    let inline = inline_directive(facts);
    let (behind, decision) = judged(at_line, code, is_markdown, inline, facts.standalone);
    if !checked {
        (at_line, seq![])
    } else {
        match decision {
            Some(waiting) => (
                behind,
                unnamed(unnamed(findings_for(code, line_num, facts.hits), waiting), inline),
            ),
            None => (behind, seq![]),
        }
    }
}

/// What the patterns say of a line in a file with comments of the given style.
pub open spec fn line_facts(line: Seq<char>, prefix: Seq<char>, suffix: Seq<char>) -> LineFacts {
    let inline = inline_ignore(line, prefix, suffix);
    LineFacts {
        inline,
        standalone: ignore_directive(line, prefix, suffix),
        hits: rule_hits(
            match inline {
                Some((code, _)) => code,
                None => line,
            },
        ),
    }
}

/// A pass that has not started.
pub open spec fn start() -> Progress {
    Progress { in_code_block: false, lint_code_block: false, skip_next: None }
}

/// How far a pass has come behind some lines, and what is reported of them. The lines are
/// numbered from 1.
pub open spec fn scanned(
    lines: Seq<Seq<char>>,
    is_markdown: bool,
    prefix: Seq<char>,
    suffix: Seq<char>,
) -> (Progress, Seq<Finding>)
    decreases lines.len(),
{
    if lines.len() == 0 {
        (start(), seq![])
    } else {
        let (progress, reported) = scanned(lines.drop_last(), is_markdown, prefix, suffix);
        let line = lines.last();
        let (behind, new) = step(
            progress,
            line,
            lines.len() as int,
            is_markdown,
            line_facts(line, prefix, suffix),
        );
        (behind, reported + new)
    }
}

/// What is reported of a file's content.
pub open spec fn file_findings(
    content: Seq<char>,
    is_markdown: bool,
    prefix: Seq<char>,
    suffix: Seq<char>,
) -> Seq<Finding> {
    scanned(text_lines(content), is_markdown, prefix, suffix).1
}

/// Whether the code block that a fence opens is checked.
pub fn should_lint_markdown_code_block(fence_line: &str) -> (r: bool)
    ensures
        r == is_shell_language(fence_language(fence_line@)),
{
    let chars = to_chars(fence_line);
    let info = trim(strip_leading(trim(chars.as_slice()), "```"));
    let language = take_word(info);
    same_text(language, "bash") || same_text(language, "sh") || same_text(language, "shell")
        || same_text(language, "zsh") || same_text(language, "console") || same_text(
        language,
        "terminal",
    ) || same_text(language, "dockerfile")
}

/// Whether a line is a comment, shows a placeholder for an address, or, in Markdown, is
/// inline code, a quotation or a list item.
pub fn is_comment_or_placeholder(line: &str, is_markdown: bool) -> (r: bool)
    ensures
        r == comment_or_placeholder(line@, is_markdown),
{
    let chars = to_chars(line);
    let content = trim(chars.as_slice());
    starts_with(content, "#") || starts_with(content, "//") || starts_with(content, "<!--")
        || contains(content, "<url>") || contains(content, "<URL>") || (is_markdown && (
    starts_with(content, "`") || starts_with(content, ">") || starts_with(content, "-")))
}

impl ScanState {
    /// A pass that has not started.
    pub fn new() -> (state: ScanState)
        ensures
            state@ == start(),
    {
        ScanState { in_code_block: false, lint_code_block: false, skip_next: None }
    }

    /// Goes on to a line and says whether the line is one that is checked.
    pub fn enter_line(&mut self, line: &str, context: &LintContext) -> (checked: bool)
        ensures
            (final(self)@, checked) == entered(old(self)@, line@, context.is_markdown),
    {
        if context.is_markdown && starts_with(trim(to_chars(line).as_slice()), "```") {
            self.lint_code_block = !self.in_code_block && should_lint_markdown_code_block(line);
            self.in_code_block = !self.in_code_block;
            self.skip_next = None;
            return false;
        }
        let checked = if self.in_code_block {
            self.lint_code_block
        } else {
            !context.is_markdown
        };
        if !checked {
            self.skip_next = None;
        }
        checked
    }

    /// Goes on behind the directives of a line that is checked, and says whether the rules
    /// apply to the line: if so, with the directive that was waiting for it.
    pub fn judge_line(
        &mut self,
        code: &str,
        context: &LintContext,
        inline: &Option<IgnoreDirective>,
        standalone: Option<IgnoreDirective>,
    ) -> (decision: Option<Option<IgnoreDirective>>)
        ensures
            (
                final(self)@,
                match decision {
                    Some(waiting) => Some(directive_view(waiting)),
                    None => None,
                },
            ) == judged(
                old(self)@,
                code@,
                context.is_markdown,
                directive_view(*inline),
                directive_view(standalone),
            ),
    {
        if inline.is_none() && standalone.is_some() {
            self.skip_next = standalone;
            return None;
        }
        let waiting = self.skip_next.take();
        if is_all(&waiting) || is_all(inline) || is_comment_or_placeholder(
            code,
            context.is_markdown,
        ) {
            None
        } else {
            Some(waiting)
        }
    }
}

/// Whether a directive asks to ignore every rule.
fn is_all(directive: &Option<IgnoreDirective>) -> (r: bool)
    ensures
        r == (directive_view(*directive) == Some(Directive::All)),
{
    match directive {
        Some(IgnoreDirective::All) => true,
        _ => false,
    }
}

/// Whether a directive names the rule of a violation.
fn ignores(directive: &Option<IgnoreDirective>, violation: &Violation) -> (r: bool)
    ensures
        r == names_rule(directive_view(*directive), violation@.rule_id),
{
    match directive {
        Some(IgnoreDirective::Specific(named)) => match &violation.rule_id {
            Some(rule) => *rule == *named,
            None => false,
        },
        _ => false,
    }
}

/// Drops the violations of the rule that a directive names.
pub fn drop_named(violations: &mut Vec<Violation>, directive: &Option<IgnoreDirective>)
    ensures
        findings(final(violations)@) == unnamed(
            findings(old(violations)@),
            directive_view(*directive),
        ),
{
    let ghost all = violations@;
    let ghost named = directive_view(*directive);
    let ghost keep = |f: Finding| !names_rule(named, f.rule_id);
    let ghost mut seen: int = 0;
    let mut i: usize = 0;
    proof {
        reveal(Seq::filter);
        assert(findings(all).take(0) =~= seq![]);
        assert(findings(all).skip(0) =~= findings(all));
    }
    while i < violations.len()
        invariant
            0 <= seen <= all.len(),
            i <= violations@.len(),
            named == directive_view(*directive),
            keep == (|f: Finding| !names_rule(named, f.rule_id)),
            violations@.len() - i == all.len() - seen,
            findings(violations@).take(i as int) == findings(all).take(seen).filter(keep),
            violations@.skip(i as int) == all.skip(seen),
        decreases violations@.len() - i,
    {
        let ghost before = violations@;
        let ghost done = findings(all).take(seen);
        proof {
            reveal(Seq::filter);
            assert(before[i as int] == before.skip(i as int)[0]);
            assert(all[seen] == all.skip(seen)[0]);
            assert(findings(all).take(seen + 1) =~= done.push(all[seen]@));
            assert(done.push(all[seen]@).drop_last() =~= done);
        }
        if ignores(directive, &violations[i]) {
            violations.remove(i);
            proof {
                assert(findings(violations@).take(i as int) =~= findings(before).take(i as int));
                assert(violations@.skip(i as int) =~= before.skip(i as int).drop_first());
                assert(all.skip(seen + 1) =~= all.skip(seen).drop_first());
            }
        } else {
            proof {
                assert(findings(before).take(i + 1) =~= findings(before).take(i as int).push(
                    before[i as int]@,
                ));
                assert(violations@.skip(i + 1) =~= before.skip(i as int).drop_first());
                assert(all.skip(seen + 1) =~= all.skip(seen).drop_first());
            }
            i += 1;
        }
        proof {
            seen = seen + 1;
        }
    }
    proof {
        assert(findings(violations@).take(i as int) =~= findings(violations@));
        assert(findings(all).take(seen) =~= findings(all));
    }
}

/// What the patterns say of a line.
#[derive(Debug)]
pub struct LineReading<'a> {
    /// The code before a directive at the line's end, and that directive.
    pub inline: Option<(&'a str, IgnoreDirective)>,
    /// The directive that the line consists of.
    pub standalone: Option<IgnoreDirective>,
    /// What the rules' patterns say of the line's code.
    pub hits: RuleHits,
}

impl<'a> View for LineReading<'a> {
    type V = LineFacts;

    open spec fn view(&self) -> LineFacts {
        LineFacts {
            inline: match self.inline {
                Some((code, directive)) => Some((code@, directive@)),
                None => None,
            },
            standalone: directive_view(self.standalone),
            hits: self.hits,
        }
    }
}

/// A download that the start of a line mentions is mentioned by the line.
proof fn lemma_download_in_part(line: Seq<char>, start: Seq<char>)
    requires
        start.is_prefix_of(line),
    ensures
        mentions_download(start) ==> mentions_download(line),
{
    assert(start =~= line.subrange(0, start.len() as int));
    if contains_text(start, "curl"@) {
        lemma_part_contains(line, 0, start.len() as int, "curl"@);
    }
    if contains_text(start, "wget"@) {
        lemma_part_contains(line, 0, start.len() as int, "wget"@);
    }
}

/// Reads a line with the patterns.
pub fn read_line<'a>(line: &'a str, comment_style: &CommentStyle, patterns: &Patterns) -> (reading:
    LineReading<'a>)
    ensures
        reading@ == line_facts(line@, comment_style.prefix@, comment_style.suffix@),
        !mentions_download(line@) ==> !reading.hits.piped_to_shell
            && !reading.hits.piped_to_interpreter && !reading.hits.evaluated,
{
    let inline = cut_inline_ignore(line, comment_style, patterns.ignore());
    let code = match &inline {
        Some((code, _)) => *code,
        None => line,
    };
    let standalone = read_ignore_directive(line, comment_style, patterns.ignore());
    let hits = match_rules(code, patterns);
    proof {
        lemma_download_in_part(line@, code@);
    }
    LineReading { inline, standalone, hits }
}

/// Goes on behind a line of which the patterns say `reading`, and returns what is reported
/// of it.
pub fn check_line(
    state: &mut ScanState,
    line: &str,
    line_num: usize,
    lint_context: &LintContext,
    reading: LineReading<'_>,
) -> (violations: Vec<Violation>)
    ensures
        (final(state)@, findings(violations@)) == step(
            old(state)@,
            line@,
            line_num as int,
            lint_context.is_markdown,
            reading@,
        ),
{
    let none: Vec<Violation> = Vec::new();
    assert(findings(none@) =~= seq![]);
    if !state.enter_line(line, lint_context) {
        return none;
    }
    let (code, inline): (&str, Option<IgnoreDirective>) = match reading.inline {
        Some((code, directive)) => (code, Some(directive)),
        None => (line, None),
    };
    match state.judge_line(code, lint_context, &inline, reading.standalone) {
        Some(waiting) => {
            let mut violations = report_hits(code, line_num, reading.hits);
            drop_named(&mut violations, &waiting);
            drop_named(&mut violations, &inline);
            violations
        },
        None => none,
    }
}

/// Each finding is on a line that mentions a program that downloads.
pub open spec fn on_download_lines(all: Seq<Finding>, lines: Seq<Seq<char>>) -> bool {
    forall|i: int|
        0 <= i < all.len() ==> {
            let n = (#[trigger] all[i]).line_num;
            1 <= n <= lines.len() && mentions_download(lines[n - 1])
        }
}

/// Where the patterns hit only lines that mention a program that downloads, only such lines
/// are reported.
proof fn lemma_reports_downloads(
    progress: Progress,
    lines: Seq<Seq<char>>,
    line_num: int,
    is_markdown: bool,
    facts: LineFacts,
)
    requires
        1 <= line_num <= lines.len(),
        !mentions_download(lines[line_num - 1]) ==> !facts.hits.piped_to_shell
            && !facts.hits.piped_to_interpreter && !facts.hits.evaluated,
    ensures
        on_download_lines(
            step(progress, lines[line_num - 1], line_num, is_markdown, facts).1,
            lines,
        ),
{
    let line = lines[line_num - 1];
    let new = step(progress, line, line_num, is_markdown, facts).1;
    lemma_step_reports_rules(progress, line, line_num, is_markdown, facts);
    lemma_rules_well_formed(code_of(line, facts), line_num, facts.hits);
    assert forall|i: int| 0 <= i < new.len() implies (#[trigger] new[i]).line_num == line_num
        && mentions_download(line) by {
        assert(new.contains(new[i]));
        assert(findings_for(code_of(line, facts), line_num, facts.hits).len() > 0);
    }
}

/// Checks a file's content with patterns that are compiled already. Only lines that mention
/// `curl` or `wget` are reported.
pub fn check_content(
    content: &str,
    lint_context: &LintContext,
    comment_style: &CommentStyle,
    patterns: &Patterns,
) -> (violations: Vec<Violation>)
    ensures
        findings(violations@) == file_findings(
            content@,
            lint_context.is_markdown,
            comment_style.prefix@,
            comment_style.suffix@,
        ),
        on_download_lines(findings(violations@), text_lines(content@)),
{
    let lines = split_lines(content);
    let ghost all = text_lines(content@);
    let ghost prefix = comment_style.prefix@;
    let ghost suffix = comment_style.suffix@;
    let mut violations: Vec<Violation> = Vec::new();
    let mut state = ScanState::new();
    proof {
        assert(findings(violations@) =~= seq![]);
        assert(all.take(0) =~= seq![]);
    }
    for i in 0..lines.len()
        invariant
            all == text_lines(content@),
            texts(lines@) == all,
            prefix == comment_style.prefix@,
            suffix == comment_style.suffix@,
            (state@, findings(violations@)) == scanned(
                all.take(i as int),
                lint_context.is_markdown,
                prefix,
                suffix,
            ),
            on_download_lines(findings(violations@), all),
    {
        let line = lines[i].as_str();
        let reading = read_line(line, comment_style, patterns);
        let ghost progress = state@;
        let ghost facts = reading@;
        let mut reported = check_line(&mut state, line, i + 1, lint_context, reading);
        let ghost before = violations@;
        let ghost new = reported@;
        violations.append(&mut reported);
        proof {
            assert(findings(before + new) =~= findings(before) + findings(new));
            assert(all[i as int] == texts(lines@)[i as int]);
            assert(all.take(i + 1).drop_last() =~= all.take(i as int));
            lemma_reports_downloads(progress, all, i + 1, lint_context.is_markdown, facts);
        }
    }
    proof {
        assert(all.take(lines@.len() as int) =~= all);
    }
    violations
}

/// Checks a file's content, as `check_content` does.
pub fn check_file(content: &str, lint_context: &LintContext, comment_style: &CommentStyle) -> (
    violations: Vec<Violation>)
    ensures
        findings(violations@) == file_findings(
            content@,
            lint_context.is_markdown,
            comment_style.prefix@,
            comment_style.suffix@,
        ),
        on_download_lines(findings(violations@), text_lines(content@)),
{
    check_content(content, lint_context, comment_style, &Patterns::new())
}

} // verus!
