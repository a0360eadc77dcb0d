//! What holds of every report: which lines it speaks of, and what directives do to it.

use vstd::prelude::*;

use crate::directives::{
    comment_body, directive_for_rule, ignore_directive, inline_ignore, Directive,
};
use crate::grammar::{addresses, lemma_added_to_addresses, names_raw_file, whole_address};
use crate::rules::{
    eval_curl_findings, findings_for, line_findings, pinned_raw_github_url,
    pipe_to_interpreter_findings, pipe_to_shell_findings, rule_hits, urls_before_pipe, Finding,
    RuleHits, Severity, EVAL_CURL, PIPE_TO_INTERPRETER, PIPE_TO_SHELL,
};
use crate::scan::{
    code_of, comment_or_placeholder, entered, fence_language, file_findings, inline_directive,
    is_fence, is_shell_language, judged, line_facts, names_rule, scanned, step, unnamed,
    LineFacts, Progress,
};
use crate::text::{
    before_first, lemma_first_of_character, lemma_first_position, text_lines, trimmed,
};

verus! {

/// The findings on one line, in their order.
pub open spec fn findings_on(all: Seq<Finding>, line_num: int) -> Seq<Finding> {
    all.filter(|f: Finding| f.line_num == line_num)
}

/// How far a pass has come before a line, which is numbered from 1.
pub open spec fn progress_before(
    lines: Seq<Seq<char>>,
    line_num: int,
    is_markdown: bool,
    prefix: Seq<char>,
    suffix: Seq<char>,
) -> Progress {
    scanned(lines.take(line_num - 1), is_markdown, prefix, suffix).0
}

pub(crate) proof fn lemma_filter_keeps_all(s: Seq<Finding>, pred: spec_fn(Finding) -> bool)
    requires
        forall|i: int| 0 <= i < s.len() ==> pred(#[trigger] s[i]),
    ensures
        s.filter(pred) == s,
    decreases s.len(),
{
    reveal(Seq::filter);
    if s.len() > 0 {
        lemma_filter_keeps_all(s.drop_last(), pred);
        assert(s =~= s.drop_last().push(s.last()));
    }
}

pub(crate) proof fn lemma_filter_keeps_none(s: Seq<Finding>, pred: spec_fn(Finding) -> bool)
    requires
        forall|i: int| 0 <= i < s.len() ==> !pred(#[trigger] s[i]),
    ensures
        s.filter(pred) == Seq::<Finding>::empty(),
    decreases s.len(),
{
    reveal(Seq::filter);
    if s.len() > 0 {
        lemma_filter_keeps_none(s.drop_last(), pred);
    } else {
        assert(s =~= Seq::<Finding>::empty());
    }
}

proof fn lemma_filters_commute(
    s: Seq<Finding>,
    p: spec_fn(Finding) -> bool,
    q: spec_fn(Finding) -> bool,
)
    ensures
        s.filter(p).filter(q) == s.filter(q).filter(p),
    decreases s.len(),
{
    reveal(Seq::filter);
    if s.len() > 0 {
        let front = s.drop_last();
        lemma_filters_commute(front, p, q);
        assert(front.filter(p).push(s.last()).drop_last() =~= front.filter(p));
        assert(front.filter(q).push(s.last()).drop_last() =~= front.filter(q));
    }
}

/// What remains after a filter was there before.
proof fn lemma_filter_subset(s: Seq<Finding>, pred: spec_fn(Finding) -> bool, f: Finding)
    requires
        s.filter(pred).contains(f),
    ensures
        s.contains(f),
        pred(f),
{
    s.lemma_filter_contains_rev(pred, f);
    let i = choose|i: int| 0 <= i < s.filter(pred).len() && s.filter(pred)[i] == f;
    s.lemma_filter_pred(pred, i);
}

/// The place of a rule in the order in which the rules report a line.
pub open spec fn rule_place(rule: Option<Seq<char>>) -> int {
    if rule == Some(PIPE_TO_SHELL@) {
        0
    } else if rule == Some(PIPE_TO_INTERPRETER@) {
        1
    } else if rule == Some(EVAL_CURL@) {
        2
    } else {
        3
    }
}

/// Findings stand in the order of their rules, and no two of them are of one rule.
pub open spec fn in_rule_order(all: Seq<Finding>) -> bool {
    forall|i: int, j: int|
        0 <= i < j < all.len() ==> rule_place((#[trigger] all[i]).rule_id) < rule_place(
            (#[trigger] all[j]).rule_id,
        )
}

proof fn lemma_filter_keeps_order(s: Seq<Finding>, pred: spec_fn(Finding) -> bool)
    requires
        in_rule_order(s),
    ensures
        in_rule_order(s.filter(pred)),
    decreases s.len(),
{
    reveal(Seq::filter);
    if s.len() > 0 {
        let front = s.drop_last();
        let kept = front.filter(pred);
        lemma_filter_keeps_order(front, pred);
        assert forall|i: int| 0 <= i < kept.len() implies rule_place((#[trigger] kept[i]).rule_id)
            < rule_place(s.last().rule_id) by {
            assert(kept.contains(kept[i]));
            lemma_filter_subset(front, pred, kept[i]);
            let j = choose|j: int| 0 <= j < front.len() && front[j] == kept[i];
            assert(s[j] == kept[i]);
        }
    }
}

/// What the rules report of a line stands in the order of the rules, and each rule reports
/// the line at most once.
pub proof fn lemma_rules_report_once(line: Seq<char>, line_num: int, hits: RuleHits)
    ensures
        in_rule_order(findings_for(line, line_num, hits)),
        findings_for(line, line_num, hits).len() <= 3,
{
    reveal_strlit("pipe-to-shell");
    reveal_strlit("pipe-to-interpreter");
    reveal_strlit("eval-curl");
    assert(PIPE_TO_SHELL@.len() == 13 && PIPE_TO_INTERPRETER@.len() == 19 && EVAL_CURL@.len() == 9);
}

/// What is reported of a line is reported by the rules of the line's code, in their order. A
/// line is reported at most once by each rule.
pub proof fn lemma_step_reports_rules(
    progress: Progress,
    line: Seq<char>,
    line_num: int,
    is_markdown: bool,
    facts: LineFacts,
)
    ensures
        forall|f: Finding| #[trigger]
            step(progress, line, line_num, is_markdown, facts).1.contains(f) ==> findings_for(
                code_of(line, facts),
                line_num,
                facts.hits,
            ).contains(f),
        in_rule_order(step(progress, line, line_num, is_markdown, facts).1),
        step(progress, line, line_num, is_markdown, facts).1.len() <= 3,
{
    let all = findings_for(code_of(line, facts), line_num, facts.hits);
    let inline = inline_directive(facts);
    let at_line = entered(progress, line, is_markdown).0;
    let decision = judged(at_line, code_of(line, facts), is_markdown, inline, facts.standalone).1;
    lemma_rules_report_once(code_of(line, facts), line_num, facts.hits);
    if let Some(waiting) = decision {
        let p = |f: Finding| !names_rule(waiting, f.rule_id);
        let q = |f: Finding| !names_rule(inline, f.rule_id);
        all.lemma_filter_len(p);
        all.filter(p).lemma_filter_len(q);
        lemma_filter_keeps_order(all, p);
        lemma_filter_keeps_order(all.filter(p), q);
        assert forall|f: Finding| unnamed(unnamed(all, waiting), inline).contains(
            f,
        ) implies all.contains(f) by {
            lemma_filter_subset(all.filter(p), q, f);
            lemma_filter_subset(all, p, f);
        }
    }
}

/// The form of a finding: it shows its line without white space around it, names one of the
/// three rules, and has the severity of that rule.
pub open spec fn well_formed(f: Finding, code: Seq<char>, line_num: int) -> bool {
    &&& f.line_num == line_num
    &&& f.line_content == trimmed(code)
    &&& f.rule_id matches Some(rule)
    &&& {
        ||| rule == PIPE_TO_SHELL@ && f.severity == Severity::Error
        ||| rule == PIPE_TO_INTERPRETER@ && f.severity == Severity::Error
        ||| rule == EVAL_CURL@ && f.severity == Severity::Warning
    }
}

/// Every finding of the rules on a line is well formed.
pub proof fn lemma_rules_well_formed(line: Seq<char>, line_num: int, hits: RuleHits)
    ensures
        forall|f: Finding| #[trigger]
            findings_for(line, line_num, hits).contains(f) ==> well_formed(f, line, line_num),
{
    let a = pipe_to_shell_findings(line, line_num, hits.piped_to_shell, hits.pinned);
    let b = pipe_to_interpreter_findings(line, line_num, hits.piped_to_interpreter);
    let c = eval_curl_findings(line, line_num, hits.evaluated);
    assert forall|f: Finding| #[trigger]
        findings_for(line, line_num, hits).contains(f) implies well_formed(f, line, line_num) by {
        let i = choose|i: int| 0 <= i < (a + b + c).len() && (a + b + c)[i] == f;
        if i < a.len() {
            assert(f == a[0]);
        } else if i < a.len() + b.len() {
            assert(f == b[0]);
        } else {
            assert(f == c[0]);
        }
    }
}

/// A download from a pinned address is never reported as piped into a shell.
pub proof fn lemma_pinned_is_exempt(line: Seq<char>, line_num: int, hits: RuleHits)
    requires
        hits.pinned,
    ensures
        findings_for(line, line_num, hits) == pipe_to_interpreter_findings(
            line,
            line_num,
            hits.piped_to_interpreter,
        ) + eval_curl_findings(line, line_num, hits.evaluated),
{
    assert(findings_for(line, line_num, hits) =~= pipe_to_interpreter_findings(
        line,
        line_num,
        hits.piped_to_interpreter,
    ) + eval_curl_findings(line, line_num, hits.evaluated));
}

/// Whether an address is pinned is decided before the first `|`: what follows it does not
/// matter.
pub proof fn lemma_pinned_before_pipe(command: Seq<char>, rest: Seq<char>)
    requires
        !command.contains('|'),
    ensures
        pinned_raw_github_url(command + seq!['|'] + rest) == pinned_raw_github_url(command),
{
    lemma_first_of_character(command, '|', rest);
    lemma_first_position(command, '|');
    assert(before_first(command, '|') =~= command);
}

/// A line with more than one address before its first `|` is not pinned, so every download
/// on it that is piped into a shell is reported.
pub proof fn lemma_several_addresses_are_not_pinned(line: Seq<char>, line_num: int)
    requires
        urls_before_pipe(line).len() > 1,
    ensures
        !pinned_raw_github_url(line),
        pipe_to_shell_findings(
            line,
            line_num,
            rule_hits(line).piped_to_shell,
            rule_hits(line).pinned,
        ).len() == if rule_hits(line).piped_to_shell {
            1nat
        } else {
            0
        },
{
}

/// An address that is added before the first `|`, behind a space, undoes a pin, unless it is
/// the only address and pinned itself.
pub proof fn lemma_added_address(command: Seq<char>, address: Seq<char>, rest: Seq<char>)
    requires
        !command.contains('|'),
        !address.contains('|'),
        whole_address(address),
        addresses(command).len() > 0 || !names_raw_file(address),
    ensures
        !pinned_raw_github_url(command + seq![' '] + address),
        !pinned_raw_github_url(command + seq![' '] + address + seq!['|'] + rest),
{
    let head = command + seq![' '] + address;
    assert(!head.contains('|')) by {
        assert forall|i: int| 0 <= i < head.len() implies head[i] != '|' by {
            if i > command.len() {
                assert(head[i] == address[i - command.len() - 1]);
            } else if i < command.len() {
                assert(head[i] == command[i]);
            }
        }
    }
    assert(before_first(head, '|') == head) by {
        lemma_first_position(head, '|');
        assert(before_first(head, '|') =~= head);
    }
    lemma_pinned_before_pipe(head, rest);
    lemma_added_to_addresses(command, address);
    if addresses(command).len() == 0 {
        assert(addresses(head)[0] == address);
    }
}

/// Every finding on a file is well formed and speaks of a line of the file, and findings
/// stand in the order of their lines.
pub proof fn lemma_report_well_formed(
    lines: Seq<Seq<char>>,
    is_markdown: bool,
    prefix: Seq<char>,
    suffix: Seq<char>,
)
    ensures
        ({
            let all = scanned(lines, is_markdown, prefix, suffix).1;
            &&& forall|i: int|
                0 <= i < all.len() ==> {
                    let n = (#[trigger] all[i]).line_num;
                    &&& 1 <= n <= lines.len()
                    &&& well_formed(
                        all[i],
                        code_of(lines[n - 1], line_facts(lines[n - 1], prefix, suffix)),
                        n,
                    )
                }
            &&& forall|i: int, j: int|
                0 <= i <= j < all.len() ==> (#[trigger] all[i]).line_num <= (
                #[trigger] all[j]).line_num
            &&& all.len() <= 3 * lines.len()
        }),
    decreases lines.len(),
{
    if lines.len() > 0 {
        let front = lines.drop_last();
        let n = lines.len() as int;
        lemma_report_well_formed(front, is_markdown, prefix, suffix);
        let (progress, reported) = scanned(front, is_markdown, prefix, suffix);
        let facts = line_facts(lines.last(), prefix, suffix);
        let code = code_of(lines.last(), facts);
        let new = step(progress, lines.last(), n, is_markdown, facts).1;
        lemma_step_reports_rules(progress, lines.last(), n, is_markdown, facts);
        lemma_rules_well_formed(code, n, facts.hits);
        let all = scanned(lines, is_markdown, prefix, suffix).1;
        assert(all == reported + new);
        assert forall|i: int| 0 <= i < all.len() implies {
            let m = (#[trigger] all[i]).line_num;
            &&& 1 <= m <= lines.len()
            &&& well_formed(
                all[i],
                code_of(lines[m - 1], line_facts(lines[m - 1], prefix, suffix)),
                m,
            )
            &&& i < reported.len() ==> m < n
            &&& i >= reported.len() ==> m == n
        } by {
            if i < reported.len() {
                assert(all[i] == reported[i]);
                assert(front[reported[i].line_num - 1] == lines[reported[i].line_num - 1]);
            } else {
                assert(all[i] == new[i - reported.len()]);
                assert(new.contains(all[i]));
                assert(well_formed(all[i], code, n));
            }
        }
        assert forall|i: int, j: int| 0 <= i <= j < all.len() implies (
        #[trigger] all[i]).line_num <= (#[trigger] all[j]).line_num by {
            if j < reported.len() {
                assert(all[i] == reported[i] && all[j] == reported[j]);
            }
        }
    }
}

/// The findings on a line are what is reported of that line, given how far the pass had
/// come before it: later lines do not matter.
pub proof fn lemma_findings_on_line(
    lines: Seq<Seq<char>>,
    line_num: int,
    is_markdown: bool,
    prefix: Seq<char>,
    suffix: Seq<char>,
)
    requires
        1 <= line_num <= lines.len(),
    ensures
        findings_on(scanned(lines, is_markdown, prefix, suffix).1, line_num) == step(
            progress_before(lines, line_num, is_markdown, prefix, suffix),
            lines[line_num - 1],
            line_num,
            is_markdown,
            line_facts(lines[line_num - 1], prefix, suffix),
        ).1,
    decreases lines.len(),
{
    let front = lines.drop_last();
    let n = lines.len() as int;
    let on_line = |f: Finding| f.line_num == line_num;
    let (progress, reported) = scanned(front, is_markdown, prefix, suffix);
    let facts = line_facts(lines.last(), prefix, suffix);
    let new = step(progress, lines.last(), n, is_markdown, facts).1;
    lemma_step_reports_rules(progress, lines.last(), n, is_markdown, facts);
    lemma_rules_well_formed(code_of(lines.last(), facts), n, facts.hits);
    assert forall|i: int| 0 <= i < new.len() implies (#[trigger] new[i]).line_num == n by {
        assert(new.contains(new[i]));
    }
    Seq::filter_distributes_over_add(reported, new, on_line);
    if line_num == n {
        lemma_report_well_formed(front, is_markdown, prefix, suffix);
        lemma_filter_keeps_none(reported, on_line);
        lemma_filter_keeps_all(new, on_line);
        assert(Seq::<Finding>::empty() + new =~= new);
        assert(lines.take(n - 1) =~= front);
    } else {
        lemma_findings_on_line(front, line_num, is_markdown, prefix, suffix);
        lemma_filter_keeps_none(new, on_line);
        assert(reported.filter(on_line) + Seq::<Finding>::empty() =~= reported.filter(on_line));
        assert(lines.take(line_num - 1) =~= front.take(line_num - 1));
        assert(front[line_num - 1] == lines[line_num - 1]);
    }
}

/// The findings on a line of a file stand in the order of their rules, and no two of them
/// are of one rule.
pub proof fn lemma_line_is_reported_once_by_rule(
    content: Seq<char>,
    line_num: int,
    is_markdown: bool,
    prefix: Seq<char>,
    suffix: Seq<char>,
)
    ensures
        in_rule_order(findings_on(file_findings(content, is_markdown, prefix, suffix), line_num)),
{
    let lines = text_lines(content);
    if 1 <= line_num <= lines.len() {
        lemma_findings_on_line(lines, line_num, is_markdown, prefix, suffix);
        lemma_step_reports_rules(
            progress_before(lines, line_num, is_markdown, prefix, suffix),
            lines[line_num - 1],
            line_num,
            is_markdown,
            line_facts(lines[line_num - 1], prefix, suffix),
        );
    } else {
        lemma_report_well_formed(lines, is_markdown, prefix, suffix);
        lemma_filter_keeps_none(
            file_findings(content, is_markdown, prefix, suffix),
            |f: Finding| f.line_num == line_num,
        );
    }
}

/// What is reported of some lines does not change when lines follow them.
pub proof fn lemma_report_extends(
    lines: Seq<Seq<char>>,
    more: Seq<Seq<char>>,
    is_markdown: bool,
    prefix: Seq<char>,
    suffix: Seq<char>,
)
    ensures
        scanned(lines, is_markdown, prefix, suffix).1.is_prefix_of(
            scanned(lines + more, is_markdown, prefix, suffix).1,
        ),
    decreases more.len(),
{
    if more.len() == 0 {
        assert(lines + more =~= lines);
    } else {
        lemma_report_extends(lines, more.drop_last(), is_markdown, prefix, suffix);
        assert((lines + more).drop_last() =~= lines + more.drop_last());
    }
}

/// A directive that stands alone and names no rule: nothing is reported of the next line,
/// whatever it holds.
pub proof fn lemma_ignore_next_line(
    content: Seq<char>,
    line_num: int,
    is_markdown: bool,
    prefix: Seq<char>,
    suffix: Seq<char>,
)
    requires
        1 <= line_num < text_lines(content).len(),
        ({
            let lines = text_lines(content);
            let line = lines[line_num - 1];
            let progress = progress_before(lines, line_num, is_markdown, prefix, suffix);
            &&& entered(progress, line, is_markdown).1
            &&& ignore_directive(line, prefix, suffix) == Some(Directive::All)
        }),
    ensures
        findings_on(file_findings(content, is_markdown, prefix, suffix), line_num + 1)
            == Seq::<Finding>::empty(),
{
    let lines = text_lines(content);
    let line = lines[line_num - 1];
    lemma_findings_on_line(lines, line_num + 1, is_markdown, prefix, suffix);
    lemma_waiting_directive(lines, line_num, is_markdown, prefix, suffix);
    lemma_standalone_is_not_inline(line, prefix, suffix);
}

/// Behind a line that consists of a directive, the directive waits for the next line.
proof fn lemma_waiting_directive(
    lines: Seq<Seq<char>>,
    line_num: int,
    is_markdown: bool,
    prefix: Seq<char>,
    suffix: Seq<char>,
)
    requires
        1 <= line_num < lines.len(),
        entered(
            progress_before(lines, line_num, is_markdown, prefix, suffix),
            lines[line_num - 1],
            is_markdown,
        ).1,
        ignore_directive(lines[line_num - 1], prefix, suffix) is Some,
    ensures
        progress_before(lines, line_num + 1, is_markdown, prefix, suffix).skip_next
            == ignore_directive(lines[line_num - 1], prefix, suffix),
{
    let upto = lines.take(line_num);
    assert(upto.drop_last() =~= lines.take(line_num - 1));
    assert(upto.last() == lines[line_num - 1]);
    lemma_standalone_is_not_inline(lines[line_num - 1], prefix, suffix);
}

/// A directive that stands alone and names a rule: that rule reports nothing of the next
/// line.
pub proof fn lemma_ignore_rule_on_next_line(
    content: Seq<char>,
    line_num: int,
    rule: Seq<char>,
    is_markdown: bool,
    prefix: Seq<char>,
    suffix: Seq<char>,
)
    requires
        1 <= line_num < text_lines(content).len(),
        ({
            let lines = text_lines(content);
            let line = lines[line_num - 1];
            let progress = progress_before(lines, line_num, is_markdown, prefix, suffix);
            &&& entered(progress, line, is_markdown).1
            &&& ignore_directive(line, prefix, suffix) == Some(Directive::Specific(rule))
        }),
    ensures
        forall|f: Finding| #[trigger]
            findings_on(
                file_findings(content, is_markdown, prefix, suffix),
                line_num + 1,
            ).contains(f) ==> f.rule_id != Some(rule),
{
    let lines = text_lines(content);
    let next = lines[line_num];
    lemma_findings_on_line(lines, line_num + 1, is_markdown, prefix, suffix);
    lemma_waiting_directive(lines, line_num, is_markdown, prefix, suffix);
    let progress = progress_before(lines, line_num + 1, is_markdown, prefix, suffix);
    lemma_named_rule_is_silent(
        progress,
        next,
        line_num + 1,
        rule,
        is_markdown,
        line_facts(next, prefix, suffix),
    );
}

/// The rule that a waiting directive names, or that the directive at the end of the line
/// names, reports nothing of the line.
pub proof fn lemma_named_rule_is_silent(
    progress: Progress,
    line: Seq<char>,
    line_num: int,
    rule: Seq<char>,
    is_markdown: bool,
    facts: LineFacts,
)
    requires
        progress.skip_next == Some(Directive::Specific(rule)) || inline_directive(facts) == Some(
            Directive::Specific(rule),
        ),
    ensures
        forall|f: Finding| #[trigger]
            step(progress, line, line_num, is_markdown, facts).1.contains(f) ==> f.rule_id != Some(
                rule,
            ),
{
    let all = findings_for(code_of(line, facts), line_num, facts.hits);
    let inline = inline_directive(facts);
    let (at_line, checked) = entered(progress, line, is_markdown);
    let decision = judged(at_line, code_of(line, facts), is_markdown, inline, facts.standalone).1;
    if checked && decision is Some {
        let waiting = decision->0;
        let p = |f: Finding| !names_rule(waiting, f.rule_id);
        let q = |f: Finding| !names_rule(inline, f.rule_id);
        assert forall|f: Finding| unnamed(unnamed(all, waiting), inline).contains(
            f,
        ) implies f.rule_id != Some(rule) by {
            lemma_filter_subset(all.filter(p), q, f);
            lemma_filter_subset(all, p, f);
        }
    }
}

/// A waiting directive that names a rule changes nothing but that rule's findings.
pub proof fn lemma_other_rules_still_report(
    progress: Progress,
    line: Seq<char>,
    line_num: int,
    rule: Seq<char>,
    is_markdown: bool,
    facts: LineFacts,
)
    ensures
        ({
            let with = Progress { skip_next: Some(Directive::Specific(rule)), ..progress };
            let without = Progress { skip_next: None, ..progress };
            step(with, line, line_num, is_markdown, facts).1 == step(
                without,
                line,
                line_num,
                is_markdown,
                facts,
            ).1.filter(|f: Finding| f.rule_id != Some(rule))
        }),
{
    let with = Progress { skip_next: Some(Directive::Specific(rule)), ..progress };
    let without = Progress { skip_next: None, ..progress };
    let code = code_of(line, facts);
    let all = findings_for(code, line_num, facts.hits);
    let inline = inline_directive(facts);
    let (at_with, checked) = entered(with, line, is_markdown);
    let (at_without, _) = entered(without, line, is_markdown);
    let decision = judged(at_without, code, is_markdown, inline, facts.standalone).1;
    lemma_drop_rule_last(all, rule, inline);
    lemma_filter_keeps_none(Seq::<Finding>::empty(), |f: Finding| f.rule_id != Some(rule));
    if checked && decision is Some {
        assert(judged(at_with, code, is_markdown, inline, facts.standalone).1 == Some(
            with.skip_next,
        ));
        assert(step(without, line, line_num, is_markdown, facts).1 == unnamed(
            unnamed(all, None),
            inline,
        ));
    } else {
        assert(step(with, line, line_num, is_markdown, facts).1 == Seq::<Finding>::empty());
        assert(step(without, line, line_num, is_markdown, facts).1 == Seq::<Finding>::empty());
    }
}

/// Dropping a rule's findings first or last is the same.
proof fn lemma_drop_rule_last(all: Seq<Finding>, rule: Seq<char>, inline: Option<Directive>)
    ensures
        unnamed(unnamed(all, Some(Directive::Specific(rule))), inline) == unnamed(
            unnamed(all, None),
            inline,
        ).filter(|f: Finding| f.rule_id != Some(rule)),
{
    let named = |f: Finding| !names_rule(Some(Directive::Specific(rule)), f.rule_id);
    let other = |f: Finding| f.rule_id != Some(rule);
    let any = |f: Finding| !names_rule(None, f.rule_id);
    let q = |f: Finding| !names_rule(inline, f.rule_id);
    assert(named =~= other);
    lemma_filter_keeps_all(all, any);
    lemma_filters_commute(all, other, q);
}

/// A directive at the end of a line that names no rule: nothing is reported of the line.
pub proof fn lemma_ignore_current_line(
    content: Seq<char>,
    line_num: int,
    is_markdown: bool,
    prefix: Seq<char>,
    suffix: Seq<char>,
)
    requires
        1 <= line_num <= text_lines(content).len(),
        inline_ignore(text_lines(content)[line_num - 1], prefix, suffix) matches Some((_, d)) && d
            == Directive::All,
    ensures
        findings_on(file_findings(content, is_markdown, prefix, suffix), line_num)
            == Seq::<Finding>::empty(),
{
    lemma_findings_on_line(text_lines(content), line_num, is_markdown, prefix, suffix);
}

/// A directive at the end of a line that names a rule: that rule reports nothing of the
/// line.
pub proof fn lemma_ignore_rule_on_current_line(
    content: Seq<char>,
    line_num: int,
    rule: Seq<char>,
    is_markdown: bool,
    prefix: Seq<char>,
    suffix: Seq<char>,
)
    requires
        1 <= line_num <= text_lines(content).len(),
        inline_ignore(text_lines(content)[line_num - 1], prefix, suffix) matches Some((_, d)) && d
            == Directive::Specific(rule),
    ensures
        forall|f: Finding| #[trigger]
            findings_on(file_findings(content, is_markdown, prefix, suffix), line_num).contains(
                f,
            ) ==> f.rule_id != Some(rule),
{
    let lines = text_lines(content);
    let line = lines[line_num - 1];
    lemma_findings_on_line(lines, line_num, is_markdown, prefix, suffix);
    lemma_named_rule_is_silent(
        progress_before(lines, line_num, is_markdown, prefix, suffix),
        line,
        line_num,
        rule,
        is_markdown,
        line_facts(line, prefix, suffix),
    );
}

/// A directive is spent on one line: behind a line that is checked and that is no directive
/// itself, none waits.
pub proof fn lemma_directive_is_spent(
    progress: Progress,
    line: Seq<char>,
    line_num: int,
    is_markdown: bool,
    facts: LineFacts,
)
    requires
        entered(progress, line, is_markdown).1,
        facts.inline is Some || facts.standalone is None,
    ensures
        step(progress, line, line_num, is_markdown, facts).0.skip_next is None,
{
}

/// A directive reaches no further than the next line: behind a line that is not checked,
/// none waits.
pub proof fn lemma_unchecked_line_clears_directive(
    progress: Progress,
    line: Seq<char>,
    line_num: int,
    is_markdown: bool,
    facts: LineFacts,
)
    requires
        !entered(progress, line, is_markdown).1,
    ensures
        step(progress, line, line_num, is_markdown, facts).0.skip_next is None,
{
}

/// No line is both a directive that stands alone and code with a directive at its end.
pub proof fn lemma_standalone_is_not_inline(line: Seq<char>, prefix: Seq<char>, suffix: Seq<char>)
    requires
        ignore_directive(line, prefix, suffix) is Some,
    ensures
        inline_ignore(line, prefix, suffix) is None,
{
    assert(comment_body(line, prefix, suffix) is Some);
}

/// A rule that a directive names is not empty and has no white space around it.
pub proof fn lemma_named_rule_is_trimmed(rule: Option<Seq<char>>)
    ensures
        directive_for_rule(rule) matches Directive::Specific(name) ==> {
            &&& name.len() > 0
            &&& trimmed(name) == name
        },
{
    if let Directive::Specific(name) = directive_for_rule(rule) {
        crate::text::lemma_trimmed_once(rule->0);
    }
}

/// Nothing is reported of a comment, nor of a line that shows a placeholder.
pub proof fn lemma_comments_are_silent(
    progress: Progress,
    line: Seq<char>,
    line_num: int,
    is_markdown: bool,
    facts: LineFacts,
)
    requires
        comment_or_placeholder(code_of(line, facts), is_markdown),
    ensures
        step(progress, line, line_num, is_markdown, facts).1 == Seq::<Finding>::empty(),
{
}

/// The line lies in a fenced code block that a fence of a shell language opened.
pub open spec fn in_shell_block(lines: Seq<Seq<char>>, line_num: int) -> bool {
    exists|opening: int| #[trigger]
        opens_block_at(lines, opening, line_num) && is_shell_language(
            fence_language(lines[opening - 1]),
        )
}

/// The fence on line `opening` opened the code block that line `line_num` lies in: no fence
/// stands between them, and an even number of fences stands before it.
pub open spec fn opens_block_at(lines: Seq<Seq<char>>, opening: int, line_num: int) -> bool {
    &&& 1 <= opening < line_num <= lines.len()
    &&& is_fence(lines[opening - 1])
    &&& forall|i: int| opening < i <= line_num ==> !is_fence(#[trigger] lines[i - 1])
    &&& fences(lines.take(opening - 1)) % 2 == 0
}

/// The number of fences among some lines.
pub open spec fn fences(lines: Seq<Seq<char>>) -> nat
    decreases lines.len(),
{
    if lines.len() == 0 {
        0
    } else {
        fences(lines.drop_last()) + if is_fence(lines.last()) {
            1nat
        } else {
            0
        }
    }
}

/// In Markdown a pass is in a code block behind an odd number of fences, and the block is
/// checked where the last fence opened it for a shell language.
pub(crate) proof fn lemma_markdown_progress(lines: Seq<Seq<char>>, prefix: Seq<char>, suffix: Seq<char>)
    ensures
        ({
            let progress = scanned(lines, true, prefix, suffix).0;
            &&& progress.in_code_block == (fences(lines) % 2 == 1)
            &&& progress.in_code_block && progress.lint_code_block ==> exists|opening: int|
                {
                    &&& 1 <= opening <= lines.len()
                    &&& is_fence(#[trigger] lines[opening - 1])
                    &&& is_shell_language(fence_language(lines[opening - 1]))
                    &&& forall|i: int| opening < i <= lines.len() ==> !is_fence(#[trigger] lines[i - 1])
                    &&& fences(lines.take(opening - 1)) % 2 == 0
                }
        }),
    decreases lines.len(),
{
    if lines.len() > 0 {
        let front = lines.drop_last();
        let n = lines.len() as int;
        lemma_markdown_progress(front, prefix, suffix);
        let progress = scanned(front, true, prefix, suffix).0;
        let behind = scanned(lines, true, prefix, suffix).0;
        if behind.in_code_block && behind.lint_code_block {
            if is_fence(lines.last()) {
                assert(lines.take(n - 1) =~= front);
                assert(is_fence(lines[n - 1]));
            } else {
                let opening = choose|opening: int|
                    {
                        &&& 1 <= opening <= front.len()
                        &&& is_fence(#[trigger] front[opening - 1])
                        &&& is_shell_language(fence_language(front[opening - 1]))
                        &&& forall|i: int|
                            opening < i <= front.len() ==> !is_fence(#[trigger] front[i - 1])
                        &&& fences(front.take(opening - 1)) % 2 == 0
                    };
                assert(lines[opening - 1] == front[opening - 1]);
                assert(lines.take(opening - 1) =~= front.take(opening - 1));
                assert forall|i: int| opening < i <= n implies !is_fence(
                    #[trigger] lines[i - 1],
                ) by {
                    if i < n {
                        assert(lines[i - 1] == front[i - 1]);
                    }
                }
            }
        }
    }
}

/// In Markdown only lines in code blocks of a shell language are reported.
pub proof fn lemma_markdown_reports_shell_blocks(
    content: Seq<char>,
    line_num: int,
    prefix: Seq<char>,
    suffix: Seq<char>,
)
    requires
        1 <= line_num <= text_lines(content).len(),
        !in_shell_block(text_lines(content), line_num),
    ensures
        findings_on(file_findings(content, true, prefix, suffix), line_num)
            == Seq::<Finding>::empty(),
{
    let lines = text_lines(content);
    let line = lines[line_num - 1];
    let before = lines.take(line_num - 1);
    lemma_findings_on_line(lines, line_num, true, prefix, suffix);
    lemma_markdown_progress(before, prefix, suffix);
    let progress = progress_before(lines, line_num, true, prefix, suffix);
    if entered(progress, line, true).1 {
        let opening = choose|opening: int|
            {
                &&& 1 <= opening <= before.len()
                &&& is_fence(#[trigger] before[opening - 1])
                &&& is_shell_language(fence_language(before[opening - 1]))
                &&& forall|i: int|
                    opening < i <= before.len() ==> !is_fence(#[trigger] before[i - 1])
                &&& fences(before.take(opening - 1)) % 2 == 0
            };
        assert(lines[opening - 1] == before[opening - 1]);
        assert(lines.take(opening - 1) =~= before.take(opening - 1));
        assert forall|i: int| opening < i <= line_num implies !is_fence(#[trigger] lines[i - 1]) by {
            if i < line_num {
                assert(lines[i - 1] == before[i - 1]);
            }
        }
        assert(opens_block_at(lines, opening, line_num));
    }
}

/// A line that is checked, that no directive speaks of and that is no comment is reported by
/// every rule whose patterns match it.
pub proof fn lemma_hits_are_reported(
    content: Seq<char>,
    line_num: int,
    is_markdown: bool,
    prefix: Seq<char>,
    suffix: Seq<char>,
)
    requires
        1 <= line_num <= text_lines(content).len(),
        ({
            let lines = text_lines(content);
            let line = lines[line_num - 1];
            let progress = progress_before(lines, line_num, is_markdown, prefix, suffix);
            &&& entered(progress, line, is_markdown).1
            &&& progress.skip_next is None
            &&& inline_ignore(line, prefix, suffix) is None
            &&& ignore_directive(line, prefix, suffix) is None
            &&& !comment_or_placeholder(line, is_markdown)
        }),
    ensures
        findings_on(file_findings(content, is_markdown, prefix, suffix), line_num)
            == line_findings(text_lines(content)[line_num - 1], line_num),
{
    let line = text_lines(content)[line_num - 1];
    let all = line_findings(line, line_num);
    lemma_findings_on_line(text_lines(content), line_num, is_markdown, prefix, suffix);
    lemma_filter_keeps_all(all, |f: Finding| !names_rule(None, f.rule_id));
}

/// The directive that waits for a line is the one on the line before it, if that line is
/// checked and holds one.
pub proof fn lemma_directive_is_on_line_before(
    lines: Seq<Seq<char>>,
    line_num: int,
    is_markdown: bool,
    prefix: Seq<char>,
    suffix: Seq<char>,
)
    requires
        1 <= line_num <= lines.len(),
    ensures
        progress_before(lines, line_num, is_markdown, prefix, suffix).skip_next == if line_num > 1
            && entered(
            progress_before(lines, line_num - 1, is_markdown, prefix, suffix),
            lines[line_num - 2],
            is_markdown,
        ).1 {
            ignore_directive(lines[line_num - 2], prefix, suffix)
        } else {
            None
        },
{
    if line_num > 1 {
        let before = lines.take(line_num - 1);
        assert(before.drop_last() =~= lines.take(line_num - 2));
        let line = before.last();
        assert(line == lines[line_num - 2]);
        if ignore_directive(line, prefix, suffix) is Some {
            lemma_standalone_is_not_inline(line, prefix, suffix);
        }
    }
}

/// Outside Markdown how far a pass has come before a line depends on the line before it
/// alone: what waits is the directive on that line, if there is one.
pub proof fn lemma_plain_directive_is_on_line_before(
    lines: Seq<Seq<char>>,
    line_num: int,
    prefix: Seq<char>,
    suffix: Seq<char>,
)
    requires
        1 <= line_num <= lines.len(),
    ensures
        progress_before(lines, line_num, false, prefix, suffix) == (Progress {
            in_code_block: false,
            lint_code_block: false,
            skip_next: if line_num > 1 {
                ignore_directive(lines[line_num - 2], prefix, suffix)
            } else {
                None
            },
        }),
    decreases line_num,
{
    lemma_directive_is_on_line_before(lines, line_num, false, prefix, suffix);
    if line_num > 1 {
        lemma_plain_directive_is_on_line_before(lines, line_num - 1, prefix, suffix);
        assert(lines.take(line_num - 1).drop_last() =~= lines.take(line_num - 2));
    }
}

/// Outside Markdown every line is checked.
pub proof fn lemma_plain_lines_are_checked(
    lines: Seq<Seq<char>>,
    line: Seq<char>,
    prefix: Seq<char>,
    suffix: Seq<char>,
)
    ensures
        entered(scanned(lines, false, prefix, suffix).0, line, false).1,
    decreases lines.len(),
{
    if lines.len() > 0 {
        lemma_plain_lines_are_checked(lines.drop_last(), lines.last(), prefix, suffix);
    }
}

} // verus!
