//! What a pass over a file promises, in terms of the text on its lines.

use vstd::prelude::*;

use crate::directives::{free_of_directives, lemma_directives_need_keyword, Directive};
use crate::guarantees::{
    findings_on, in_shell_block, lemma_comments_are_silent, lemma_directive_is_on_line_before,
    lemma_filter_keeps_all, lemma_findings_on_line, lemma_markdown_progress,
    lemma_plain_lines_are_checked, opens_block_at, progress_before,
};
use crate::patterns::{regex_is_match, IGNORE, RAW_GITHUB_FULL_COMMIT, REMOTE_URL};
use crate::reading_laws::{
    adds_no_rule, asked_for, directive_text, lemma_code_with_directive,
    lemma_comment_with_directive,
};
use crate::rules::{
    eval_curl_findings, line_findings, pinned_raw_github_url, pipe_to_interpreter_findings,
    pipe_to_shell_findings, rule_hits, Finding, Severity,
};
use crate::scan::{
    comment_or_placeholder, entered, fence_language, file_findings, is_fence, is_shell_language,
    line_facts, names_rule, scanned,
};
use crate::text::{
    contains_text, first_word, lemma_trimmed_contains, lemma_trimmed_in_parts, occurs_at,
    text_lines, trimmed, trimmed_end, trimmed_start, white_space, without_leading,
};
use crate::text_laws::{
    blank, lemma_contains_parts, lemma_end_parts, lemma_first_word, lemma_parts_of_containing,
    lemma_trimmed_around_core, lemma_trimmed_between, lemma_trimmed_end_of,
    lemma_trimmed_start_of, lemma_without_leading, solid,
};

verus! {

/// What stands in a text without white space at its ends stands in the text that is trimmed,
/// and the other way round.
proof fn lemma_holds_trimmed(line: Seq<char>, part: Seq<char>)
    requires
        part.len() > 0,
        solid(part),
    ensures
        contains_text(trimmed(line), part) == contains_text(line, part),
{
    if contains_text(trimmed(line), part) {
        lemma_trimmed_contains(line, part);
    }
    if contains_text(line, part) {
        let (a, b) = lemma_parts_of_containing(line, part);
        lemma_trimmed_around_core(a, part, b);
        lemma_contains_parts(trimmed_start(a), part, trimmed_end(b));
    }
}

/// A prefix without white space at its end is one of a text whether or not the text's end is
/// trimmed.
proof fn lemma_prefix_when_trimmed(rest: Seq<char>, prefix: Seq<char>)
    requires
        prefix.len() > 0,
        !white_space(prefix.last()),
    ensures
        prefix.is_prefix_of(trimmed_end(rest)) == prefix.is_prefix_of(rest),
{
    let k = prefix.len() as int;
    let end = trimmed_end(rest);
    let after = lemma_end_parts(rest);
    if prefix.is_prefix_of(rest) {
        assert(rest.subrange(0, k)[k - 1] == rest[k - 1]);
        if end.len() < k {
            assert(white_space(after[k - 1 - end.len()]));
            assert(rest[k - 1] == after[k - 1 - end.len()]);
        }
        assert(end.subrange(0, k) =~= rest.subrange(0, k));
    }
    if prefix.is_prefix_of(end) {
        assert(end.subrange(0, k) =~= rest.subrange(0, k));
    }
}

/// A line is a fence exactly where its first characters that are no white space are three
/// backquotes.
pub proof fn lemma_fence(before: Seq<char>, rest: Seq<char>)
    requires
        blank(before),
        rest.len() > 0 ==> !white_space(rest.first()),
    ensures
        is_fence(before + rest) <==> rest.len() >= 3 && rest[0] == '`' && rest[1] == '`' && rest[2]
            == '`',
{
    reveal_strlit("```");
    lemma_trimmed_start_of(before, rest);
    if rest.len() > 0 {
        lemma_prefix_when_trimmed(rest, "```"@);
        if rest.len() >= 3 {
            let start = rest.subrange(0, 3);
            assert(start[0] == rest[0] && start[1] == rest[1] && start[2] == rest[2]);
            if rest[0] == '`' && rest[1] == '`' && rest[2] == '`' {
                assert(start =~= "```"@);
            }
        }
    } else {
        assert(trimmed(before + rest).len() == 0);
    }
}

/// A fence that names a language, with white space before the name or none, and anything
/// behind it: its block is checked exactly where the name is that of a shell.
pub proof fn lemma_fence_with_language(
    before: Seq<char>,
    gap: Seq<char>,
    word: Seq<char>,
    after: Seq<char>,
)
    requires
        blank(before),
        blank(gap),
        word.len() > 0,
        gap.len() == 0 ==> !"```"@.is_prefix_of(word),
        forall|i: int| 0 <= i < word.len() ==> !white_space(#[trigger] word[i]),
        after.len() > 0 ==> white_space(after.first()),
    ensures
        is_shell_language(fence_language(before + "```"@ + gap + word + after)) <==> (word
            == "bash"@ || word == "sh"@ || word == "shell"@ || word == "zsh"@ || word == "console"@
            || word == "terminal"@ || word == "dockerfile"@),
{
    reveal_strlit("```");
    let rest = gap + word + after;
    let tail = word + after;
    assert(before + "```"@ + gap + word + after =~= before + "```"@ + rest);
    lemma_info_of_fence(before, rest);
    assert(!white_space(word[0]));
    assert(tail.first() == word[0]);
    assert(rest =~= gap + tail);
    let info = trimmed_end(rest);
    let end = lemma_end_parts(rest);
    assert(!"```"@.is_prefix_of(info)) by {
        if "```"@.is_prefix_of(info) {
            let start = info.subrange(0, 3);
            assert(start[0] == info[0] && start[1] == info[1] && start[2] == info[2]);
            assert(rest[0] == info[0] && rest[1] == info[1] && rest[2] == info[2]);
            if gap.len() > 0 {
                assert(white_space(gap[0]));
            } else if word.len() < 3 {
                assert(after.first() == rest[word.len() as int]);
            } else {
                assert(word.subrange(0, 3) =~= start);
            }
        }
    }
    lemma_without_leading("```"@, info);
    lemma_trimmed_in_parts(rest);
    lemma_trimmed_start_of(gap, tail);
    let kept = trimmed_end(tail);
    let cut = lemma_end_parts(tail);
    let none = Seq::<char>::empty();
    assert(kept.len() >= word.len()) by {
        if kept.len() < word.len() {
            assert(cut.len() > 0);
            let i = word.len() - 1 - kept.len();
            assert(white_space(cut[i]));
            assert(tail[word.len() - 1] == cut[i]);
            assert(!white_space(word[word.len() - 1]));
        }
    }
    let more = kept.skip(word.len() as int);
    assert(kept =~= none + word + more) by {
        assert forall|i: int| 0 <= i < word.len() implies kept[i] == word[i] by {
            assert(tail[i] == kept[i]);
        }
    }
    if more.len() > 0 {
        assert(more.first() == kept[word.len() as int]);
        assert(tail[word.len() as int] == kept[word.len() as int]);
        assert(after.first() == tail[word.len() as int]);
    }
    lemma_first_word(none, word, more);
}

/// Backquotes are taken off a fence by threes: behind the first three, a fence names what it
/// names without them.
pub proof fn lemma_fence_of_six(before: Seq<char>, rest: Seq<char>)
    requires
        blank(before),
    ensures
        fence_language(before + "```"@ + ("```"@ + rest)) == fence_language(
            before + "```"@ + rest,
        ),
{
    reveal_strlit("```");
    let none = Seq::<char>::empty();
    lemma_info_of_fence(before, "```"@ + rest);
    lemma_info_of_fence(before, rest);
    lemma_trimmed_around_core(none, "```"@, rest);
    assert(none + "```"@ + rest =~= "```"@ + rest);
    lemma_trimmed_start_of(none, "```"@ + rest);
    assert(("```"@ + rest).first() == '`');
    assert(trimmed_end("```"@ + rest) =~= "```"@ + trimmed_end(rest)) by {
        assert(trimmed_start("```"@ + rest) == "```"@ + rest);
        assert(trimmed_start(none) =~= none);
    }
    lemma_without_leading("```"@, trimmed_end(rest));
}

/// What a fence names is looked for behind its backquotes.
proof fn lemma_info_of_fence(before: Seq<char>, rest: Seq<char>)
    requires
        blank(before),
    ensures
        fence_language(before + "```"@ + rest) == first_word(
            trimmed(without_leading(trimmed_end(rest), "```"@)),
        ),
{
    reveal_strlit("```");
    lemma_trimmed_around_core(before, "```"@, rest);
    let none = Seq::<char>::empty();
    lemma_trimmed_start_of(before, none);
    assert(before + none =~= before);
    let kept = trimmed_end(rest);
    assert(trimmed(before + "```"@ + rest) =~= "```"@ + kept);
    lemma_without_leading("```"@, kept);
}

/// A fence with nothing but white space behind it names no language, and its block is not
/// checked.
pub proof fn lemma_fence_without_language(before: Seq<char>, gap: Seq<char>)
    requires
        blank(before),
        blank(gap),
    ensures
        !is_shell_language(fence_language(before + "```"@ + gap)),
{
    let none = Seq::<char>::empty();
    lemma_info_of_fence(before, gap);
    lemma_trimmed_end_of(none, gap);
    assert(none + gap =~= gap);
    reveal_strlit("```");
    assert(trimmed_end(gap) =~= none);
    lemma_without_leading("```"@, none);
    assert(trimmed(none) =~= none);
    lemma_first_word(none, none, none);
    assert(none + none + none =~= none);
    reveal_strlit("bash");
    reveal_strlit("sh");
    reveal_strlit("shell");
    reveal_strlit("zsh");
    reveal_strlit("console");
    reveal_strlit("terminal");
    reveal_strlit("dockerfile");
}

/// A line is passed over as a comment, a placeholder or Markdown's own text exactly where it
/// starts as one, behind white space, or holds a placeholder. What stands further on in the
/// line does not matter.
pub proof fn lemma_passed_over(before: Seq<char>, rest: Seq<char>, is_markdown: bool)
    requires
        blank(before),
        rest.len() > 0 && !white_space(rest.first()),
    ensures
        comment_or_placeholder(before + rest, is_markdown) <==> {
            ||| rest[0] == '#'
            ||| rest.len() > 1 && rest[0] == '/' && rest[1] == '/'
            ||| rest.len() > 3 && rest[0] == '<' && rest[1] == '!' && rest[2] == '-' && rest[3]
                == '-'
            ||| is_markdown && (rest[0] == '`' || rest[0] == '>' || rest[0] == '-')
            ||| contains_text(before + rest, "<url>"@)
            ||| contains_text(before + rest, "<URL>"@)
        },
{
    reveal_strlit("#");
    reveal_strlit("//");
    reveal_strlit("<!--");
    reveal_strlit("`");
    reveal_strlit(">");
    reveal_strlit("-");
    reveal_strlit("<url>");
    reveal_strlit("<URL>");
    let line = before + rest;
    lemma_trimmed_start_of(before, rest);
    lemma_holds_trimmed(line, "<url>"@);
    lemma_holds_trimmed(line, "<URL>"@);
    lemma_first_characters(rest, "#"@);
    lemma_first_characters(rest, "//"@);
    lemma_first_characters(rest, "<!--"@);
    lemma_first_characters(rest, "`"@);
    lemma_first_characters(rest, ">"@);
    lemma_first_characters(rest, "-"@);
    assert("#"@[0] == '#' && "`"@[0] == '`' && ">"@[0] == '>' && "-"@[0] == '-');
    assert("//"@[0] == '/' && "//"@[1] == '/');
    assert("<!--"@[0] == '<' && "<!--"@[1] == '!' && "<!--"@[2] == '-' && "<!--"@[3] == '-');
}

proof fn lemma_first_characters(rest: Seq<char>, prefix: Seq<char>)
    requires
        0 < prefix.len(),
        !white_space(prefix.last()),
    ensures
        prefix.is_prefix_of(trimmed_end(rest)) <==> {
            &&& prefix.len() <= rest.len()
            &&& forall|i: int| 0 <= i < prefix.len() ==> rest[i] == #[trigger] prefix[i]
        },
{
    lemma_prefix_when_trimmed(rest, prefix);
    let k = prefix.len() as int;
    if prefix.is_prefix_of(rest) {
        assert forall|i: int| 0 <= i < k implies rest[i] == #[trigger] prefix[i] by {
            assert(rest.subrange(0, k)[i] == rest[i]);
        }
    }
    if k <= rest.len() && forall|i: int| 0 <= i < k ==> rest[i] == #[trigger] prefix[i] {
        assert(rest.subrange(0, k) =~= prefix);
    }
}

/// An empty line, or one of white space, is not passed over.
pub proof fn lemma_blank_is_not_passed_over(line: Seq<char>, is_markdown: bool)
    requires
        blank(line),
    ensures
        !comment_or_placeholder(line, is_markdown),
{
    reveal_strlit("#");
    reveal_strlit("//");
    reveal_strlit("<!--");
    reveal_strlit("`");
    reveal_strlit(">");
    reveal_strlit("-");
    reveal_strlit("<url>");
    reveal_strlit("<URL>");
    let none = Seq::<char>::empty();
    lemma_trimmed_between(line, none, none);
    assert(line + none + none =~= line);
}

/// A rule reports something among some findings.
pub open spec fn reports(all: Seq<Finding>, rule: Seq<char>) -> bool {
    exists|i: int| 0 <= i < all.len() && (#[trigger] all[i]).rule_id == Some(rule)
}

/// What the rules report of a line: each rule reports it exactly where its pattern matches,
/// but for downloads from a pinned address that are piped into a shell. A finding has the
/// number and the text of the line, and the message and the severity of its rule.
pub proof fn lemma_rules_report(line: Seq<char>, line_num: int)
    ensures
        ({
            let all = line_findings(line, line_num);
            &&& reports(all, "pipe-to-shell"@) <==> regex_is_match(
                r"\b(curl|wget)\b.*\|.*\b(bash|sh|zsh|fish|dash)\b"@,
                line,
            ) && !pinned_raw_github_url(line)
            &&& reports(all, "pipe-to-interpreter"@) <==> regex_is_match(
                r"\b(curl|wget)\b.*\|.*\b(python[23]?|perl|ruby|lua[0-9]*|node)\b"@,
                line,
            )
            &&& reports(all, "eval-curl"@) <==> regex_is_match(
                r"\beval\s+.*(\$\(|`).*\b(curl|wget)\b"@,
                line,
            )
            &&& forall|i: int|
                0 <= i < all.len() ==> {
                    let f = #[trigger] all[i];
                    &&& f.line_num == line_num
                    &&& f.line_content == trimmed(line)
                    &&& {
                        ||| f.rule_id == Some("pipe-to-shell"@) && f.severity == Severity::Error
                            && f.message
                            == "curl/wget piped directly to shell; use a pinned and verified installer instead."@
                        ||| f.rule_id == Some("pipe-to-interpreter"@) && f.severity
                            == Severity::Error && f.message
                            == "curl/wget piped directly to a scripting interpreter; use a pinned and verified installer instead."@
                        ||| f.rule_id == Some("eval-curl"@) && f.severity == Severity::Warning
                            && f.message
                            == "curl/wget inside eval — eval executes in current shell context, not a subshell. Prefer downloading and inspecting first."@
                    }
                }
        }),
{
    reveal_strlit("pipe-to-shell");
    reveal_strlit("pipe-to-interpreter");
    reveal_strlit("eval-curl");
    let all = line_findings(line, line_num);
    let hits = rule_hits(line);
    let a = pipe_to_shell_findings(line, line_num, hits.piped_to_shell, hits.pinned);
    let b = pipe_to_interpreter_findings(line, line_num, hits.piped_to_interpreter);
    let c = eval_curl_findings(line, line_num, hits.evaluated);
    assert(all == a + b + c);
    assert("pipe-to-shell"@.len() == 13 && "pipe-to-interpreter"@.len() == 19
        && "eval-curl"@.len() == 9);
    if a.len() > 0 {
        assert(all[0] == a[0]);
    }
    if b.len() > 0 {
        assert(all[a.len() as int] == b[0]);
    }
    if c.len() > 0 {
        assert(all[(a.len() + b.len()) as int] == c[0]);
    }
}

/// The line is one of those that are checked: every line outside Markdown, and in Markdown
/// every line in a code block that a fence of a shell language opened.
pub open spec fn in_checked_part(lines: Seq<Seq<char>>, line_num: int, is_markdown: bool) -> bool {
    !is_markdown || in_shell_block(lines, line_num)
}

/// From the fence that opened it, a block is checked or not as the fence says, up to the next
/// fence.
proof fn lemma_block_goes_on(
    lines: Seq<Seq<char>>,
    opening: int,
    line_num: int,
    prefix: Seq<char>,
    suffix: Seq<char>,
)
    requires
        opens_block_at(lines, opening, line_num),
    ensures
        ({
            let progress = progress_before(lines, line_num, true, prefix, suffix);
            &&& progress.in_code_block
            &&& progress.lint_code_block == is_shell_language(fence_language(lines[opening - 1]))
        }),
    decreases line_num - opening,
{
    let upto = lines.take(line_num - 1);
    let front = upto.drop_last();
    let line = upto.last();
    assert(line == lines[line_num - 2]);
    assert(front =~= lines.take(line_num - 2));
    if line_num == opening + 1 {
        lemma_markdown_progress(front, prefix, suffix);
        assert(front =~= lines.take(opening - 1));
    } else {
        assert(opens_block_at(lines, opening, line_num - 1));
        lemma_block_goes_on(lines, opening, line_num - 1, prefix, suffix);
        assert(!is_fence(lines[(line_num - 1) - 1]));
    }
}

/// Every line outside Markdown is checked, and so is every line of Markdown in a code block
/// that a fence of a shell language opened: whatever the line holds.
pub proof fn lemma_lines_are_checked(
    lines: Seq<Seq<char>>,
    line_num: int,
    is_markdown: bool,
    prefix: Seq<char>,
    suffix: Seq<char>,
)
    requires
        1 <= line_num <= lines.len(),
        in_checked_part(lines, line_num, is_markdown),
    ensures
        entered(
            progress_before(lines, line_num, is_markdown, prefix, suffix),
            lines[line_num - 1],
            is_markdown,
        ).1,
{
    if is_markdown {
        let opening = choose|opening: int| #[trigger]
            opens_block_at(lines, opening, line_num) && is_shell_language(
                fence_language(lines[opening - 1]),
            );
        lemma_block_goes_on(lines, opening, line_num, prefix, suffix);
        assert(!is_fence(lines[line_num - 1]));
    } else {
        lemma_plain_lines_are_checked(
            lines.take(line_num - 1),
            lines[line_num - 1],
            prefix,
            suffix,
        );
    }
}

/// What is reported of a line without directives, given the directive that waits for it.
pub proof fn lemma_step_without_directives(
    lines: Seq<Seq<char>>,
    line_num: int,
    is_markdown: bool,
    prefix: Seq<char>,
    suffix: Seq<char>,
)
    requires
        1 <= line_num <= lines.len(),
        in_checked_part(lines, line_num, is_markdown),
        free_of_directives(lines[line_num - 1], prefix, suffix),
    ensures
        ({
            let line = lines[line_num - 1];
            let all = line_findings(line, line_num);
            findings_on(scanned(lines, is_markdown, prefix, suffix).1, line_num)
                == if comment_or_placeholder(line, is_markdown) {
                seq![]
            } else {
                match progress_before(lines, line_num, is_markdown, prefix, suffix).skip_next {
                    Some(Directive::All) => seq![],
                    Some(Directive::Specific(name)) => all.filter(
                        |f: Finding| f.rule_id != Some(name),
                    ),
                    None => all,
                }
            }
        }),
{
    let line = lines[line_num - 1];
    let all = line_findings(line, line_num);
    let progress = progress_before(lines, line_num, is_markdown, prefix, suffix);
    lemma_findings_on_line(lines, line_num, is_markdown, prefix, suffix);
    lemma_lines_are_checked(lines, line_num, is_markdown, prefix, suffix);
    let any = |f: Finding| !names_rule(None, f.rule_id);
    lemma_filter_keeps_all(all, any);
    if let Some(Directive::Specific(name)) = progress.skip_next {
        let other = |f: Finding| f.rule_id != Some(name);
        let unnamed_rule = |f: Finding| !names_rule(progress.skip_next, f.rule_id);
        assert(unnamed_rule =~= other);
        lemma_filter_keeps_all(all.filter(other), any);
    }
}

/// What waits for a line where the line before it, if there is one, lacks the keyword.
proof fn lemma_nothing_waits(
    lines: Seq<Seq<char>>,
    line_num: int,
    is_markdown: bool,
    prefix: Seq<char>,
    suffix: Seq<char>,
)
    requires
        1 <= line_num <= lines.len(),
        line_num > 1 ==> !contains_text(lines[line_num - 2], "hermit:"@),
    ensures
        progress_before(lines, line_num, is_markdown, prefix, suffix).skip_next is None,
{
    lemma_directive_is_on_line_before(lines, line_num, is_markdown, prefix, suffix);
    if line_num > 1 {
        lemma_directives_need_keyword(lines[line_num - 2], prefix, suffix);
    }
}

/// A line of code that is checked, where neither it nor the line before it speaks of `hermit:`:
/// whatever the rules find on it is reported, whatever else stands on it, a comment behind the
/// code too.
pub proof fn lemma_code_is_reported(
    content: Seq<char>,
    line_num: int,
    is_markdown: bool,
    prefix: Seq<char>,
    suffix: Seq<char>,
    before: Seq<char>,
    rest: Seq<char>,
)
    requires
        1 <= line_num <= text_lines(content).len(),
        in_checked_part(text_lines(content), line_num, is_markdown),
        text_lines(content)[line_num - 1] == before + rest,
        blank(before),
        rest.len() > 0 && !white_space(rest.first()),
        rest[0] != '#',
        rest[0] == '/' ==> rest.len() == 1 || rest[1] != '/',
        rest[0] == '<' ==> rest.len() < 4 || rest[1] != '!' || rest[2] != '-' || rest[3] != '-',
        is_markdown ==> rest[0] != '`' && rest[0] != '>' && rest[0] != '-',
        !contains_text(before + rest, "<url>"@),
        !contains_text(before + rest, "<URL>"@),
        !contains_text(before + rest, "hermit:"@),
        line_num > 1 ==> !contains_text(text_lines(content)[line_num - 2], "hermit:"@),
    ensures
        findings_on(file_findings(content, is_markdown, prefix, suffix), line_num)
            == line_findings(before + rest, line_num),
{
    let lines = text_lines(content);
    lemma_passed_over(before, rest, is_markdown);
    lemma_directives_need_keyword(before + rest, prefix, suffix);
    lemma_nothing_waits(lines, line_num, is_markdown, prefix, suffix);
    lemma_step_without_directives(lines, line_num, is_markdown, prefix, suffix);
}

/// Nothing is reported of a line that starts as a comment, or that holds a placeholder for an
/// address, where neither it nor the line before it speaks of `hermit:`.
pub proof fn lemma_comment_is_not_reported(
    content: Seq<char>,
    line_num: int,
    is_markdown: bool,
    prefix: Seq<char>,
    suffix: Seq<char>,
    before: Seq<char>,
    rest: Seq<char>,
)
    requires
        1 <= line_num <= text_lines(content).len(),
        text_lines(content)[line_num - 1] == before + rest,
        blank(before),
        rest.len() > 0 && !white_space(rest.first()),
        !contains_text(before + rest, "hermit:"@),
        ({
            ||| rest[0] == '#'
            ||| rest.len() > 1 && rest[0] == '/' && rest[1] == '/'
            ||| rest.len() > 3 && rest[0] == '<' && rest[1] == '!' && rest[2] == '-' && rest[3]
                == '-'
            ||| is_markdown && (rest[0] == '`' || rest[0] == '>' || rest[0] == '-')
            ||| contains_text(before + rest, "<url>"@)
            ||| contains_text(before + rest, "<URL>"@)
        }),
    ensures
        findings_on(file_findings(content, is_markdown, prefix, suffix), line_num)
            == Seq::<Finding>::empty(),
{
    let lines = text_lines(content);
    let line = lines[line_num - 1];
    lemma_passed_over(before, rest, is_markdown);
    lemma_directives_need_keyword(before + rest, prefix, suffix);
    lemma_findings_on_line(lines, line_num, is_markdown, prefix, suffix);
    lemma_comments_are_silent(
        progress_before(lines, line_num, is_markdown, prefix, suffix),
        line,
        line_num,
        is_markdown,
        line_facts(line, prefix, suffix),
    );
}

/// A comment with a directive on a line of its own, however it is indented, and a line behind
/// it that does not speak of `hermit:`. Where the directive names no rule, nothing is reported
/// of that line. Where it names one, that rule alone reports nothing.
pub proof fn lemma_directive_on_line_before(
    content: Seq<char>,
    line_num: int,
    is_markdown: bool,
    before: Seq<char>,
    prefix: Seq<char>,
    head: Seq<char>,
    gap: Seq<char>,
    space: Seq<char>,
    rule: Option<Seq<char>>,
    rest: Seq<char>,
    suffix: Seq<char>,
    after: Seq<char>,
)
    requires
        1 <= line_num < text_lines(content).len(),
        in_checked_part(text_lines(content), line_num, is_markdown),
        in_checked_part(text_lines(content), line_num + 1, is_markdown),
        text_lines(content)[line_num - 1] == before + prefix + (head + directive_text(gap, space, rule)
            + rest) + suffix + after,
        !contains_text(text_lines(content)[line_num], "hermit:"@),
        blank(before),
        blank(after),
        blank(gap),
        blank(space),
        prefix.len() > 0 && solid(prefix),
        solid(suffix),
        !contains_text(head, "hermit:"@),
        rule matches Some(name) ==> !name.contains(']'),
        rule is None ==> adds_no_rule(rest),
    ensures
        ({
            let line = text_lines(content)[line_num];
            let all = line_findings(line, line_num + 1);
            findings_on(file_findings(content, is_markdown, prefix, suffix), line_num + 1)
                == if comment_or_placeholder(line, is_markdown) {
                seq![]
            } else {
                match rule {
                    Some(name) if !blank(name) => all.filter(
                        |f: Finding| f.rule_id != Some(trimmed(name)),
                    ),
                    _ => seq![],
                }
            }
        }),
{
    let lines = text_lines(content);
    lemma_comment_with_directive(before, prefix, head, gap, space, rule, rest, suffix, after);
    lemma_lines_are_checked(lines, line_num, is_markdown, prefix, suffix);
    lemma_directive_is_on_line_before(lines, line_num + 1, is_markdown, prefix, suffix);
    lemma_directives_need_keyword(lines[line_num], prefix, suffix);
    lemma_step_without_directives(lines, line_num + 1, is_markdown, prefix, suffix);
}

/// A directive in a comment behind the code of a line, where the line before it does not speak
/// of `hermit:`. Where the directive names no rule, nothing is reported of the line. Where it
/// names one, the other rules report what they find on the code before the comment.
pub proof fn lemma_directive_behind_code(
    content: Seq<char>,
    line_num: int,
    is_markdown: bool,
    code: Seq<char>,
    prefix: Seq<char>,
    head: Seq<char>,
    gap: Seq<char>,
    space: Seq<char>,
    rule: Option<Seq<char>>,
    rest: Seq<char>,
    suffix: Seq<char>,
    after: Seq<char>,
)
    requires
        1 <= line_num <= text_lines(content).len(),
        in_checked_part(text_lines(content), line_num, is_markdown),
        text_lines(content)[line_num - 1] == code + prefix + (head + directive_text(gap, space, rule)
            + rest) + suffix + after,
        line_num > 1 ==> !contains_text(text_lines(content)[line_num - 2], "hermit:"@),
        blank(after),
        blank(gap),
        blank(space),
        prefix.len() > 0 && solid(prefix),
        solid(suffix),
        !contains_text(code + prefix + head, "hermit:"@),
        rule matches Some(name) ==> !name.contains(']'),
        rule is None ==> adds_no_rule(rest),
        !blank(code),
        !prefix.is_prefix_of(trimmed_start(code + prefix)),
        forall|i: int| #[trigger]
            occurs_at(code + prefix + head, prefix, i) ==> i <= code.len(),
    ensures
        findings_on(file_findings(content, is_markdown, prefix, suffix), line_num)
            == if comment_or_placeholder(code, is_markdown) {
            seq![]
        } else {
            match rule {
                Some(name) if !blank(name) => line_findings(code, line_num).filter(
                    |f: Finding| f.rule_id != Some(trimmed(name)),
                ),
                _ => seq![],
            }
        },
{
    let lines = text_lines(content);
    let line = lines[line_num - 1];
    let all = line_findings(code, line_num);
    lemma_code_with_directive(code, prefix, head, gap, space, rule, rest, suffix, after);
    lemma_lines_are_checked(lines, line_num, is_markdown, prefix, suffix);
    lemma_nothing_waits(lines, line_num, is_markdown, prefix, suffix);
    lemma_findings_on_line(lines, line_num, is_markdown, prefix, suffix);
    let any = |f: Finding| !names_rule(None, f.rule_id);
    lemma_filter_keeps_all(all, any);
    if let Directive::Specific(name) = asked_for(rule) {
        let other = |f: Finding| f.rule_id != Some(name);
        let unnamed_rule = |f: Finding| !names_rule(Some(Directive::Specific(name)), f.rule_id);
        assert(unnamed_rule =~= other);
    }
}

/// Directives, addresses and pinned files are looked for with the patterns that are written
/// here, in which the case of letters counts.
pub proof fn lemma_patterns_as_written()
    ensures
        IGNORE@ == r"hermit:\s*ignore(?:\s*\[([^\]]*)\])?"@,
        REMOTE_URL@ == r#"https?://[^\s|'"]+"#@,
        RAW_GITHUB_FULL_COMMIT@
            == r#"https://raw\.githubusercontent\.com/[^/\s'"]+/[^/\s'"]+/[0-9a-fA-F]{40}/[^\s|'"]+"#@,
{
}

} // verus!
