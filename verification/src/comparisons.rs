//! How reports compare: a file with directives and the same file without them.

use vstd::prelude::*;

use crate::directives::{
    directive_for_rule, free_of_directives, ignore_directive, inline_ignore,
    lemma_directives_need_keyword, lemma_usual_comment_is_read, usual_comment, Directive,
};
use crate::grammar::{lemma_directive_behind, lemma_usual_start, KEYWORD};
use crate::guarantees::{
    findings_on, lemma_filter_keeps_all, lemma_filter_keeps_none, lemma_findings_on_line,
    lemma_named_rule_is_silent, lemma_other_rules_still_report, lemma_report_well_formed,
    lemma_rules_well_formed, lemma_standalone_is_not_inline, lemma_step_reports_rules,
    progress_before,
};
use crate::rules::{line_findings, rule_hits, Finding};
use crate::scan::{
    code_of, comment_or_placeholder, entered, file_findings, line_facts, names_rule, scanned,
    start, step, LineFacts, Progress,
};
use crate::text::{
    contains_text, last_occurrence, lemma_first_line, lemma_last_occurrence, lemma_line_contains,
    occurs_at, text_lines, trimmed, trimmed_end, trimmed_start, white_space,
    without_carriage_return,
};

verus! {

/// What the rules report of the lines that are no comments, one line after the other. The
/// lines are numbered from 1.
pub open spec fn code_findings(lines: Seq<Seq<char>>) -> Seq<Finding>
    decreases lines.len(),
{
    if lines.len() == 0 {
        seq![]
    } else {
        code_findings(lines.drop_last()) + if comment_or_placeholder(lines.last(), false) {
            seq![]
        } else {
            line_findings(lines.last(), lines.len() as int)
        }
    }
}

/// Outside Markdown, where no line holds a directive, the report is what the rules report of
/// the lines that are no comments.
pub proof fn lemma_report_without_directives(
    lines: Seq<Seq<char>>,
    prefix: Seq<char>,
    suffix: Seq<char>,
)
    requires
        forall|i: int|
            0 <= i < lines.len() ==> free_of_directives(#[trigger] lines[i], prefix, suffix),
    ensures
        scanned(lines, false, prefix, suffix) == (start(), code_findings(lines)),
    decreases lines.len(),
{
    if lines.len() > 0 {
        let front = lines.drop_last();
        let line = lines.last();
        assert(free_of_directives(lines[lines.len() - 1], prefix, suffix));
        assert forall|i: int| 0 <= i < front.len() implies free_of_directives(
            #[trigger] front[i],
            prefix,
            suffix,
        ) by {
            assert(front[i] == lines[i]);
        }
        lemma_report_without_directives(front, prefix, suffix);
        lemma_filter_keeps_all(
            line_findings(line, lines.len() as int),
            |f: Finding| !names_rule(None, f.rule_id),
        );
    }
}

/// Outside Markdown, content without the keyword of the directives is reported as the rules
/// report its lines that are no comments.
pub proof fn lemma_report_without_keyword(
    content: Seq<char>,
    prefix: Seq<char>,
    suffix: Seq<char>,
)
    requires
        !contains_text(content, KEYWORD@),
    ensures
        file_findings(content, false, prefix, suffix) == code_findings(text_lines(content)),
{
    let lines = text_lines(content);
    assert forall|i: int| 0 <= i < lines.len() implies free_of_directives(
        #[trigger] lines[i],
        prefix,
        suffix,
    ) by {
        if contains_text(lines[i], KEYWORD@) {
            lemma_line_contains(content, i, KEYWORD@);
        }
        lemma_directives_need_keyword(lines[i], prefix, suffix);
    }
    lemma_report_without_directives(lines, prefix, suffix);
}

/// The directive asks to ignore the rule.
pub open spec fn silences(directive: Directive, rule: Option<Seq<char>>) -> bool {
    match directive {
        Directive::All => true,
        Directive::Specific(named) => rule == Some(named),
    }
}

/// The finding is neither on the line of a directive nor on the next line and of a rule that
/// the directive asks to ignore.
pub open spec fn beside_directive(f: Finding, line_num: int, directive: Directive) -> bool {
    &&& f.line_num != line_num
    &&& !(f.line_num == line_num + 1 && silences(directive, f.rule_id))
}

proof fn lemma_step_speaks_of_its_line(
    progress: Progress,
    line: Seq<char>,
    line_num: int,
    is_markdown: bool,
    facts: LineFacts,
)
    ensures
        ({
            let new = step(progress, line, line_num, is_markdown, facts).1;
            forall|i: int| 0 <= i < new.len() ==> (#[trigger] new[i]).line_num == line_num
        }),
{
    let new = step(progress, line, line_num, is_markdown, facts).1;
    lemma_step_reports_rules(progress, line, line_num, is_markdown, facts);
    lemma_rules_well_formed(code_of(line, facts), line_num, facts.hits);
    assert forall|i: int| 0 <= i < new.len() implies (#[trigger] new[i]).line_num == line_num by {
        assert(new.contains(new[i]));
    }
}

/// What a waiting directive does to a line: the rules that it asks to ignore are not
/// reported, and nothing else changes, neither on the line nor behind it.
proof fn lemma_waiting_directive_silences(
    progress: Progress,
    directive: Directive,
    line: Seq<char>,
    line_num: int,
    is_markdown: bool,
    facts: LineFacts,
)
    ensures
        ({
            let with = step(
                Progress { skip_next: Some(directive), ..progress },
                line,
                line_num,
                is_markdown,
                facts,
            );
            let without = step(
                Progress { skip_next: None, ..progress },
                line,
                line_num,
                is_markdown,
                facts,
            );
            &&& with.0 == without.0
            &&& with.1 == without.1.filter(|f: Finding| !silences(directive, f.rule_id))
        }),
{
    let keep = |f: Finding| !silences(directive, f.rule_id);
    let without = step(
        Progress { skip_next: None, ..progress },
        line,
        line_num,
        is_markdown,
        facts,
    ).1;
    match directive {
        Directive::All => {
            lemma_filter_keeps_none(without, keep);
        },
        Directive::Specific(rule) => {
            lemma_other_rules_still_report(progress, line, line_num, rule, is_markdown, facts);
            assert(keep =~= |f: Finding| f.rule_id != Some(rule));
        },
    }
}

/// A line that is a directive, against another line in its place that is checked and is no
/// directive. The reports differ on that line, and on the next line by the rules that the
/// directive asks to ignore. They do not differ anywhere else.
pub proof fn lemma_directive_changes_next_line(
    before: Seq<Seq<char>>,
    comment: Seq<char>,
    other: Seq<char>,
    after: Seq<Seq<char>>,
    is_markdown: bool,
    prefix: Seq<char>,
    suffix: Seq<char>,
)
    requires
        ignore_directive(comment, prefix, suffix) is Some,
        ignore_directive(other, prefix, suffix) is None,
        entered(scanned(before, is_markdown, prefix, suffix).0, comment, is_markdown).1,
        entered(scanned(before, is_markdown, prefix, suffix).0, other, is_markdown).1,
    ensures
        ({
            let directive = ignore_directive(comment, prefix, suffix)->0;
            let with = scanned(before + seq![comment] + after, is_markdown, prefix, suffix);
            let without = scanned(before + seq![other] + after, is_markdown, prefix, suffix);
            &&& with.1 == without.1.filter(
                |f: Finding| beside_directive(f, before.len() + 1int, directive),
            )
            &&& after.len() > 0 ==> with.0 == without.0
            &&& after.len() == 0 ==> {
                &&& without.0.skip_next is None
                &&& with.0 == Progress { skip_next: Some(directive), ..without.0 }
            }
        }),
    decreases after.len(),
{
    let directive = ignore_directive(comment, prefix, suffix)->0;
    let place = before.len() + 1int;
    let keep = |f: Finding| beside_directive(f, place, directive);
    let lines = before + seq![comment] + after;
    let others = before + seq![other] + after;
    if after.len() == 0 {
        let (progress, reported) = scanned(before, is_markdown, prefix, suffix);
        let facts = line_facts(other, prefix, suffix);
        let new = step(progress, other, place, is_markdown, facts).1;
        assert(lines.drop_last() =~= before);
        assert(others.drop_last() =~= before);
        lemma_standalone_is_not_inline(comment, prefix, suffix);
        assert(scanned(lines, is_markdown, prefix, suffix).1 =~= reported);
        lemma_report_well_formed(before, is_markdown, prefix, suffix);
        lemma_step_speaks_of_its_line(progress, other, place, is_markdown, facts);
        Seq::filter_distributes_over_add(reported, new, keep);
        lemma_filter_keeps_all(reported, keep);
        lemma_filter_keeps_none(new, keep);
        assert(reported + Seq::<Finding>::empty() =~= reported);
    } else {
        let front = after.drop_last();
        let line = after.last();
        let n = lines.len() as int;
        let facts = line_facts(line, prefix, suffix);
        lemma_directive_changes_next_line(
            before,
            comment,
            other,
            front,
            is_markdown,
            prefix,
            suffix,
        );
        assert(lines.drop_last() =~= before + seq![comment] + front);
        assert(others.drop_last() =~= before + seq![other] + front);
        let with = scanned(lines.drop_last(), is_markdown, prefix, suffix);
        let without = scanned(others.drop_last(), is_markdown, prefix, suffix);
        let new = step(without.0, line, n, is_markdown, facts).1;
        lemma_step_speaks_of_its_line(without.0, line, n, is_markdown, facts);
        Seq::filter_distributes_over_add(without.1, new, keep);
        if front.len() == 0 {
            let heard = |f: Finding| !silences(directive, f.rule_id);
            lemma_waiting_directive_silences(without.0, directive, line, n, is_markdown, facts);
            assert(without.0 == Progress { skip_next: None, ..without.0 });
            lemma_filters_agree(new, keep, heard);
        } else {
            lemma_filter_keeps_all(new, keep);
        }
    }
}

proof fn lemma_filters_agree(
    s: Seq<Finding>,
    p: spec_fn(Finding) -> bool,
    q: spec_fn(Finding) -> bool,
)
    requires
        forall|i: int| 0 <= i < s.len() ==> p(#[trigger] s[i]) == q(s[i]),
    ensures
        s.filter(p) == s.filter(q),
    decreases s.len(),
{
    reveal(Seq::filter);
    if s.len() > 0 {
        lemma_filters_agree(s.drop_last(), p, q);
    }
}

/// Outside Markdown, a comment with a directive on the first line, against an empty first
/// line: the report lacks what is reported of the empty line and, on the second line, the
/// rules that the directive asks to ignore. Nothing else differs.
pub proof fn lemma_directive_against_empty_line(
    comment: Seq<char>,
    rest: Seq<char>,
    prefix: Seq<char>,
    suffix: Seq<char>,
)
    requires
        prefix.len() > 0,
        !comment.contains('\n'),
        ignore_directive(without_carriage_return(comment), prefix, suffix) is Some,
    ensures
        file_findings(comment + seq!['\n'] + rest, false, prefix, suffix) == file_findings(
            seq!['\n'] + rest,
            false,
            prefix,
            suffix,
        ).filter(
            |f: Finding|
                beside_directive(
                    f,
                    1,
                    ignore_directive(without_carriage_return(comment), prefix, suffix)->0,
                ),
        ),
{
    let none = Seq::<Seq<char>>::empty();
    let empty = Seq::<char>::empty();
    let line = without_carriage_return(comment);
    lemma_first_line(comment, rest);
    lemma_first_line(empty, rest);
    assert(empty + seq!['\n'] + rest =~= seq!['\n'] + rest);
    assert(trimmed(empty) =~= empty);
    lemma_directive_changes_next_line(none, line, empty, text_lines(rest), false, prefix, suffix);
    assert(none + seq![line] + text_lines(rest) =~= seq![line] + text_lines(rest));
    assert(none + seq![empty] + text_lines(rest) =~= seq![empty] + text_lines(rest));
}

/// The directive that waits for a line is the one in the comment before it.
pub open spec fn usual_waiting(
    lines: Seq<Seq<char>>,
    prefix: Seq<char>,
    suffix: Seq<char>,
) -> Option<Directive> {
    if lines.len() > 0 {
        usual_comment(lines.last(), prefix, suffix)
    } else {
        None
    }
}

/// What is reported of a line: nothing of a comment, else what the rules report, without the
/// rules that a waiting directive asks to ignore.
pub open spec fn usual_line_report(
    line: Seq<char>,
    line_num: int,
    waiting: Option<Directive>,
    prefix: Seq<char>,
    suffix: Seq<char>,
) -> Seq<Finding> {
    if usual_comment(line, prefix, suffix) is Some || comment_or_placeholder(line, false) {
        seq![]
    } else {
        match waiting {
            Some(directive) => line_findings(line, line_num).filter(
                |f: Finding| !silences(directive, f.rule_id),
            ),
            None => line_findings(line, line_num),
        }
    }
}

/// What is reported outside Markdown of lines whose directives are comments in their usual
/// form, each of which waits for the next line. The lines are numbered from 1.
pub open spec fn usual_report(lines: Seq<Seq<char>>, prefix: Seq<char>, suffix: Seq<char>) -> Seq<
    Finding,
>
    decreases lines.len(),
{
    if lines.len() == 0 {
        seq![]
    } else {
        let front = lines.drop_last();
        usual_report(front, prefix, suffix) + usual_line_report(
            lines.last(),
            lines.len() as int,
            usual_waiting(front, prefix, suffix),
            prefix,
            suffix,
        )
    }
}

/// Each line lacks the keyword of the directives or is a comment that says nothing but a
/// directive in its usual form.
pub open spec fn usual_lines(lines: Seq<Seq<char>>, prefix: Seq<char>, suffix: Seq<char>) -> bool {
    forall|i: int|
        0 <= i < lines.len() ==> !contains_text(#[trigger] lines[i], KEYWORD@) || usual_comment(
            lines[i],
            prefix,
            suffix,
        ) is Some
}

proof fn lemma_usual_line(
    line: Seq<char>,
    line_num: int,
    waiting: Option<Directive>,
    prefix: Seq<char>,
    suffix: Seq<char>,
)
    requires
        !contains_text(line, KEYWORD@) || usual_comment(line, prefix, suffix) is Some,
    ensures
        step(
            Progress { skip_next: waiting, ..start() },
            line,
            line_num,
            false,
            line_facts(line, prefix, suffix),
        ) == (
            Progress { skip_next: usual_comment(line, prefix, suffix), ..start() },
            usual_line_report(line, line_num, waiting, prefix, suffix),
        ),
{
    let facts = line_facts(line, prefix, suffix);
    if usual_comment(line, prefix, suffix) is Some {
        lemma_usual_comment_is_read(line, prefix, suffix);
        lemma_standalone_is_not_inline(line, prefix, suffix);
    } else {
        lemma_directives_need_keyword(line, prefix, suffix);
        let all = line_findings(line, line_num);
        lemma_filter_keeps_all(all, |f: Finding| !names_rule(None, f.rule_id));
        if let Some(directive) = waiting {
            lemma_waiting_directive_silences(start(), directive, line, line_num, false, facts);
            lemma_filter_keeps_none(
                Seq::<Finding>::empty(),
                |f: Finding| !silences(directive, f.rule_id),
            );
        }
    }
}

/// Outside Markdown, where each line lacks the keyword or is a directive in its usual form,
/// the report follows from the rules and the comments alone.
pub proof fn lemma_usual_report(lines: Seq<Seq<char>>, prefix: Seq<char>, suffix: Seq<char>)
    requires
        usual_lines(lines, prefix, suffix),
    ensures
        scanned(lines, false, prefix, suffix) == (
            Progress { skip_next: usual_waiting(lines, prefix, suffix), ..start() },
            usual_report(lines, prefix, suffix),
        ),
    decreases lines.len(),
{
    if lines.len() > 0 {
        let front = lines.drop_last();
        let line = lines.last();
        let n = lines.len() as int;
        assert(line == lines[n - 1]);
        assert forall|i: int| 0 <= i < front.len() implies !contains_text(
            #[trigger] front[i],
            KEYWORD@,
        ) || usual_comment(front[i], prefix, suffix) is Some by {
            assert(front[i] == lines[i]);
        }
        lemma_usual_report(front, prefix, suffix);
        lemma_usual_line(line, n, usual_waiting(front, prefix, suffix), prefix, suffix);
    }
}

proof fn lemma_usual_line_speaks_of_its_line(
    line: Seq<char>,
    line_num: int,
    waiting: Option<Directive>,
    prefix: Seq<char>,
    suffix: Seq<char>,
)
    ensures
        ({
            let new = usual_line_report(line, line_num, waiting, prefix, suffix);
            forall|i: int| 0 <= i < new.len() ==> (#[trigger] new[i]).line_num == line_num
        }),
{
    let all = line_findings(line, line_num);
    let new = usual_line_report(line, line_num, waiting, prefix, suffix);
    lemma_rules_well_formed(line, line_num, rule_hits(line));
    assert forall|i: int| 0 <= i < new.len() implies (#[trigger] new[i]).line_num == line_num by {
        assert(new.contains(new[i]));
        if let Some(directive) = waiting {
            all.lemma_filter_contains_rev(|f: Finding| !silences(directive, f.rule_id), new[i]);
        }
        assert(all.contains(new[i]));
    }
}

/// A directive in its usual form on the first line, against another line that is none: the
/// report lacks what is reported of that line and, on the second line, the rules that the
/// directive asks to ignore. Nothing else differs.
pub proof fn lemma_usual_directive_changes_next_line(
    comment: Seq<char>,
    other: Seq<char>,
    rest: Seq<Seq<char>>,
    prefix: Seq<char>,
    suffix: Seq<char>,
)
    requires
        usual_comment(comment, prefix, suffix) is Some,
        usual_comment(other, prefix, suffix) is None,
    ensures
        usual_report(seq![comment] + rest, prefix, suffix) == usual_report(
            seq![other] + rest,
            prefix,
            suffix,
        ).filter(
            |f: Finding| beside_directive(f, 1, usual_comment(comment, prefix, suffix)->0),
        ),
    decreases rest.len(),
{
    let directive = usual_comment(comment, prefix, suffix)->0;
    let keep = |f: Finding| beside_directive(f, 1, directive);
    let lines = seq![comment] + rest;
    let others = seq![other] + rest;
    let n = lines.len() as int;
    if rest.len() == 0 {
        let nothing = Seq::<Finding>::empty();
        assert(lines.drop_last() =~= Seq::<Seq<char>>::empty());
        assert(others.drop_last() =~= Seq::<Seq<char>>::empty());
        lemma_usual_line_speaks_of_its_line(other, 1, None, prefix, suffix);
        assert(usual_report(others.drop_last(), prefix, suffix) =~= nothing);
        assert(others.last() == other && lines.last() == comment);
        assert(usual_report(others, prefix, suffix) =~= usual_line_report(
            other,
            1,
            None,
            prefix,
            suffix,
        ));
        lemma_filter_keeps_none(usual_report(others, prefix, suffix), keep);
        assert(usual_report(lines, prefix, suffix) =~= nothing);
    } else {
        let front = rest.drop_last();
        let line = rest.last();
        lemma_usual_directive_changes_next_line(comment, other, front, prefix, suffix);
        assert(lines.drop_last() =~= seq![comment] + front);
        assert(others.drop_last() =~= seq![other] + front);
        let waiting = usual_waiting(others.drop_last(), prefix, suffix);
        let new = usual_line_report(line, n, waiting, prefix, suffix);
        lemma_usual_line_speaks_of_its_line(line, n, waiting, prefix, suffix);
        Seq::filter_distributes_over_add(
            usual_report(others.drop_last(), prefix, suffix),
            new,
            keep,
        );
        if front.len() == 0 {
            let heard = |f: Finding| !silences(directive, f.rule_id);
            lemma_filters_agree(new, keep, heard);
            lemma_filter_keeps_none(Seq::<Finding>::empty(), heard);
        } else {
            assert(lines.drop_last().last() == others.drop_last().last());
            lemma_filter_keeps_all(new, keep);
        }
    }
}

/// A comment with a directive in its usual form, as it is written on a line of its own.
pub open spec fn directive_line(prefix: Seq<char>, rule: Option<Seq<char>>, suffix: Seq<char>) -> Seq<
    char,
> {
    let text = match rule {
        Some(name) => "hermit: ignore["@ + name + "]"@,
        None => "hermit: ignore"@,
    };
    if suffix.len() == 0 {
        prefix + " "@ + text
    } else {
        prefix + " "@ + text + " "@ + suffix
    }
}

/// A directive that is written in its usual form is read as one, with the rule that it
/// names.
pub proof fn lemma_written_directive_is_read(
    prefix: Seq<char>,
    rule: Option<Seq<char>>,
    suffix: Seq<char>,
)
    requires
        prefix.len() > 0 && !white_space(prefix.first()),
        suffix.len() > 0 ==> !white_space(suffix.last()),
        rule matches Some(name) ==> !name.contains(']'),
    ensures
        usual_comment(directive_line(prefix, rule, suffix), prefix, suffix) == Some(
            directive_for_rule(rule),
        ),
{
    let text = match rule {
        Some(name) => "hermit: ignore["@ + name + "]"@,
        None => "hermit: ignore"@,
    };
    let line = directive_line(prefix, rule, suffix);
    reveal_strlit("hermit: ignore[");
    reveal_strlit("hermit: ignore");
    reveal_strlit("]");
    reveal_strlit(" ");
    assert(trimmed(line) == line);
    let rest = line.skip(prefix.len() as int);
    assert(line.subrange(0, prefix.len() as int) =~= prefix);
    assert(rest.subrange(rest.len() - suffix.len(), rest.len() as int) =~= suffix);
    let inner = rest.take(rest.len() - suffix.len());
    assert(inner.drop_first() =~= if suffix.len() == 0 {
        text
    } else {
        text + " "@
    });
    assert(trimmed_start(inner.drop_first()) == inner.drop_first());
    assert(trimmed_start(inner) == inner.drop_first());
    if suffix.len() > 0 {
        assert((text + " "@).drop_last() =~= text);
    }
    assert(trimmed_end(text) == text);
    assert(trimmed(inner) == text);
    match rule {
        Some(name) => {
            let opening = "hermit: ignore["@;
            assert(text.subrange(0, opening.len() as int) =~= opening);
            assert(text.subrange(text.len() - 1, text.len() as int) =~= "]"@);
            assert(text.subrange(opening.len() as int, text.len() - 1) =~= name);
            assert(text.len() != "hermit: ignore"@.len());
        },
        None => {},
    }
}

/// A directive in its usual form on the first line, against an empty first line: the report
/// lacks, on the second line, the rules that the directive asks to ignore. Nothing else
/// differs but what is reported of the empty line.
pub proof fn lemma_written_directive_against_empty_line(
    prefix: Seq<char>,
    rule: Option<Seq<char>>,
    suffix: Seq<char>,
    rest: Seq<char>,
)
    requires
        prefix.len() > 0 && !white_space(prefix.first()),
        suffix.len() > 0 ==> !white_space(suffix.last()),
        rule matches Some(name) ==> !name.contains(']'),
        !directive_line(prefix, rule, suffix).contains('\n'),
    ensures
        usual_report(
            text_lines(directive_line(prefix, rule, suffix) + seq!['\n'] + rest),
            prefix,
            suffix,
        ) == usual_report(text_lines(seq!['\n'] + rest), prefix, suffix).filter(
            |f: Finding| beside_directive(f, 1, directive_for_rule(rule)),
        ),
{
    let line = directive_line(prefix, rule, suffix);
    let empty = Seq::<char>::empty();
    lemma_written_directive_is_read(prefix, rule, suffix);
    lemma_first_line(line, rest);
    lemma_first_line(empty, rest);
    assert(empty + seq!['\n'] + rest =~= seq!['\n'] + rest);
    assert(trimmed(empty) =~= empty);
    assert(line.last() != '\r') by {
        reveal_strlit("hermit: ignore");
        reveal_strlit("]");
        if suffix.len() > 0 {
            assert(line.last() == suffix.last());
        }
    }
    lemma_usual_directive_changes_next_line(line, empty, text_lines(rest), prefix, suffix);
}

/// A directive in its usual form at the end of a line of code is read as one, with the rule
/// that it names, and parts the code from its comment.
pub proof fn lemma_written_inline_directive_is_read(
    code: Seq<char>,
    prefix: Seq<char>,
    rule: Option<Seq<char>>,
    suffix: Seq<char>,
)
    requires
        prefix.len() > 0 && !white_space(prefix.first()),
        suffix.len() > 0 ==> !white_space(suffix.last()),
        rule matches Some(name) ==> !name.contains(']'),
        !contains_text(code + prefix + " "@, KEYWORD@),
        trimmed(code).len() > 0,
        !prefix.is_prefix_of(trimmed(code + directive_line(prefix, rule, suffix))),
    ensures
        inline_ignore(code + directive_line(prefix, rule, suffix), prefix, suffix) == Some(
            (code, directive_for_rule(rule)),
        ),
{
    let comment = directive_line(prefix, rule, suffix);
    let line = code + comment;
    let head = code + prefix + " "@;
    let tail = comment.skip(prefix.len() + 1int);
    let n = code.len() as int;
    reveal_strlit(" ");
    reveal_strlit("hermit: ignore");
    reveal_strlit("hermit: ignore[");
    assert(tail =~= "hermit: ignore"@ + tail.skip(14));
    lemma_usual_start(tail.skip(14));
    assert(line =~= head + tail);
    lemma_directive_behind(head, tail);
    lemma_last_occurrence(head, prefix);
    assert(head.subrange(n, n + prefix.len()) =~= prefix);
    assert(occurs_at(head, prefix, n));
    let last = last_occurrence(head, prefix)->0;
    assert(last == n) by {
        if last > n {
            assert(last == n + 1);
            lemma_no_shifted_prefix(prefix, head, n);
        }
    }
    assert(line.take(n) =~= code);
    assert(line.skip(n) =~= comment);
    lemma_written_directive_is_read(prefix, rule, suffix);
    lemma_usual_comment_is_read(comment, prefix, suffix);
}

/// A text that starts with no white space does not stand at two neighbouring positions where
/// a space ends the second.
proof fn lemma_no_shifted_prefix(prefix: Seq<char>, s: Seq<char>, n: int)
    requires
        prefix.len() > 0 && !white_space(prefix.first()),
        0 <= n,
        s.len() == n + prefix.len() + 1,
        s.last() == ' ',
        occurs_at(s, prefix, n),
    ensures
        !occurs_at(s, prefix, n + 1),
{
    let k = prefix.len() as int;
    if occurs_at(s, prefix, n + 1) {
        assert forall|i: int| 0 <= i < k implies s[n + i] == prefix[i] && s[n + 1 + i]
            == #[trigger] prefix[i] by {
            assert(s.subrange(n, n + k)[i] == s[n + i]);
            assert(s.subrange(n + 1, n + 1 + k)[i] == s[n + 1 + i]);
        }
        lemma_spaces_before(prefix, s, n, k - 1);
    }
}

proof fn lemma_spaces_before(prefix: Seq<char>, s: Seq<char>, n: int, i: int)
    requires
        0 <= i < prefix.len(),
        0 <= n,
        s.len() == n + prefix.len() + 1,
        prefix[i] == ' ',
        forall|j: int|
            0 <= j < prefix.len() ==> s[n + j] == prefix[j] && s[n + 1 + j] == #[trigger] prefix[j],
    ensures
        prefix[0] == ' ',
    decreases i,
{
    if i > 0 {
        assert(prefix[i - 1] == s[n + i]);
        lemma_spaces_before(prefix, s, n, i - 1);
    }
}

/// A line of code with a directive in its usual form at its end: the rules that the directive
/// asks to ignore report nothing of the line. Where no directive waits for the line, the other
/// rules report what they report of the code before the comment.
pub proof fn lemma_written_inline_directive_on_line(
    content: Seq<char>,
    line_num: int,
    is_markdown: bool,
    code: Seq<char>,
    prefix: Seq<char>,
    rule: Option<Seq<char>>,
    suffix: Seq<char>,
)
    requires
        1 <= line_num <= text_lines(content).len(),
        text_lines(content)[line_num - 1] == code + directive_line(prefix, rule, suffix),
        prefix.len() > 0 && !white_space(prefix.first()),
        suffix.len() > 0 ==> !white_space(suffix.last()),
        rule matches Some(name) ==> !name.contains(']'),
        !contains_text(code + prefix + " "@, KEYWORD@),
        trimmed(code).len() > 0,
        !prefix.is_prefix_of(trimmed(code + directive_line(prefix, rule, suffix))),
    ensures
        ({
            let lines = text_lines(content);
            let progress = progress_before(lines, line_num, is_markdown, prefix, suffix);
            let found = findings_on(
                file_findings(content, is_markdown, prefix, suffix),
                line_num,
            );
            &&& forall|f: Finding| #[trigger]
                found.contains(f) ==> !silences(directive_for_rule(rule), f.rule_id)
            &&& progress.skip_next is None ==> found == if entered(
                progress,
                lines[line_num - 1],
                is_markdown,
            ).1 && !comment_or_placeholder(code, is_markdown) {
                line_findings(code, line_num).filter(
                    |f: Finding| !silences(directive_for_rule(rule), f.rule_id),
                )
            } else {
                seq![]
            }
        }),
{
    let lines = text_lines(content);
    let line = lines[line_num - 1];
    let directive = directive_for_rule(rule);
    let facts = line_facts(line, prefix, suffix);
    let progress = progress_before(lines, line_num, is_markdown, prefix, suffix);
    lemma_written_inline_directive_is_read(code, prefix, rule, suffix);
    lemma_findings_on_line(lines, line_num, is_markdown, prefix, suffix);
    let all = line_findings(code, line_num);
    let heard = |f: Finding| !silences(directive, f.rule_id);
    match directive {
        Directive::All => {
            lemma_filter_keeps_none(all, heard);
        },
        Directive::Specific(name) => {
            lemma_named_rule_is_silent(progress, line, line_num, name, is_markdown, facts);
            lemma_filter_keeps_all(all, |f: Finding| !names_rule(None, f.rule_id));
            lemma_filters_agree(all, |f: Finding| !names_rule(Some(directive), f.rule_id), heard);
        },
    }
}

} // verus!
