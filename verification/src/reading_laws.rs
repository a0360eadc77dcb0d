//! What the reading of directives and comments promises, in terms of the parts that a line
//! is written with.

use vstd::prelude::*;

use crate::directives::{
    comment_body, directive_for_rule, directive_view, ignore_directive, inline_ignore, Directive,
    IgnoreDirective,
};
use crate::grammar::{
    directive_at_start, first_directive, lemma_directive_behind, lemma_first_directive_is_part,
};
use crate::text::{
    contains_text, first_position, last_occurrence, lemma_first_position, lemma_last_occurrence,
    lemma_part_contains, lemma_trimmed_contains, lemma_trimmed_in_parts, occurs_at, trimmed,
    trimmed_end, trimmed_start, white_space,
};
use crate::text_laws::{
    blank, lemma_contains_parts, lemma_end_parts, lemma_start_parts, lemma_trimmed_around_core,
    lemma_trimmed_between, lemma_trimmed_parts, lemma_trimmed_start_of, solid,
};

verus! {

/// A directive as it is written: the keyword, white space, `ignore`, and, where it names a
/// rule, white space and the rule in brackets.
pub open spec fn directive_text(
    gap: Seq<char>,
    space: Seq<char>,
    rule: Option<Seq<char>>,
) -> Seq<char> {
    "hermit:"@ + gap + "ignore"@ + match rule {
        Some(name) => space + "["@ + name + "]"@,
        None => ""@,
    }
}

/// What stands behind a directive adds no rule to it: no bracket opens behind white space, or
/// none closes.
pub open spec fn adds_no_rule(rest: Seq<char>) -> bool {
    !"["@.is_prefix_of(trimmed_start(rest)) || !rest.contains(']')
}

proof fn lemma_word_behind_keyword(gap: Seq<char>, tail: Seq<char>)
    requires
        blank(gap),
    ensures
        ({
            let text = "hermit:"@ + gap + "ignore"@ + tail;
            &&& "hermit:"@.is_prefix_of(text)
            &&& trimmed_start(text.skip(7)) == "ignore"@ + tail
            &&& "ignore"@.is_prefix_of("ignore"@ + tail)
            &&& ("ignore"@ + tail).skip(6) == tail
            &&& directive_at_start(text) is Some
        }),
{
    reveal_strlit("hermit:");
    reveal_strlit("ignore");
    let text = "hermit:"@ + gap + "ignore"@ + tail;
    let word = "ignore"@ + tail;
    assert(text.subrange(0, 7) =~= "hermit:"@);
    assert(text.skip(7) =~= gap + word);
    lemma_trimmed_start_of(gap, word);
    assert(word.subrange(0, 6) =~= "ignore"@);
    assert(word.skip(6) =~= tail);
}

/// A text whose first directive has brackets behind it, with white space before them or none:
/// the rule is what stands between the first two of them.
pub proof fn lemma_directive_with_rule(
    head: Seq<char>,
    gap: Seq<char>,
    space: Seq<char>,
    name: Seq<char>,
    rest: Seq<char>,
)
    requires
        !contains_text(head, "hermit:"@),
        blank(gap),
        blank(space),
        !name.contains(']'),
    ensures
        ({
            let written = "hermit:"@ + gap + "ignore"@ + space + "["@ + name + "]"@;
            first_directive(head + written + rest) matches Some(found) && found.before == head
                && found.matched == written && found.rule == Some(name)
        }),
{
    reveal_strlit("hermit:");
    reveal_strlit("ignore");
    reveal_strlit("[");
    reveal_strlit("]");
    let written = "hermit:"@ + gap + "ignore"@ + space + "["@ + name + "]"@;
    let group = "["@ + name + "]"@ + rest;
    let tail = space + group;
    let text = "hermit:"@ + gap + "ignore"@ + tail;
    assert(written + rest =~= text);
    assert(head + written + rest =~= head + text);
    lemma_word_behind_keyword(gap, tail);
    lemma_trimmed_start_of(space, group);
    assert(group.subrange(0, 1) =~= "["@);
    let n = name.len() + 1int;
    assert(group[n] == ']');
    lemma_first_position(group, ']');
    let end = first_position(group, ']');
    assert(end == n) by {
        if end < n {
            assert(group[end] == ']');
            if end > 0 {
                assert(name[end - 1] == ']');
            }
        }
    }
    assert(group.subrange(1, end) =~= name);
    assert(text.take(text.len() - group.len() + end + 1) =~= written);
    lemma_directive_behind(head, text);
}

/// A text whose first directive has no brackets behind it: the directive names no rule.
pub proof fn lemma_directive_without_rule(head: Seq<char>, gap: Seq<char>, rest: Seq<char>)
    requires
        !contains_text(head, "hermit:"@),
        blank(gap),
        adds_no_rule(rest),
    ensures
        ({
            let written = "hermit:"@ + gap + "ignore"@;
            first_directive(head + written + rest) matches Some(found) && found.before == head
                && found.matched == written && found.rule is None
        }),
{
    reveal_strlit("hermit:");
    reveal_strlit("ignore");
    let written = "hermit:"@ + gap + "ignore"@;
    let text = written + rest;
    assert(text =~= "hermit:"@ + gap + "ignore"@ + rest);
    assert(head + written + rest =~= head + text);
    lemma_word_behind_keyword(gap, rest);
    let before = lemma_start_parts(rest);
    if trimmed_start(rest).contains(']') {
        let i = choose|i: int| 0 <= i < trimmed_start(rest).len() && trimmed_start(rest)[i] == ']';
        assert(rest[before.len() + i] == ']');
    }
    assert(text.take(text.len() - rest.len()) =~= written);
    lemma_directive_behind(head, text);
}

/// Where a directive is found, the keyword stands, and behind it and white space `ignore`.
pub proof fn lemma_found_directive_is_written(text: Seq<char>) -> (parts: (
    Seq<char>,
    Seq<char>,
    Seq<char>,
))
    requires
        first_directive(text) is Some,
    ensures
        blank(parts.1),
        text == parts.0 + "hermit:"@ + parts.1 + "ignore"@ + parts.2,
        parts.0 == first_directive(text)->0.before,
{
    reveal_strlit("hermit:");
    reveal_strlit("ignore");
    lemma_first_directive_is_part(text);
    let head = first_directive(text)->0.before;
    let rest = text.skip(head.len() as int);
    let after = rest.skip(7);
    let word = trimmed_start(after);
    let gap = lemma_start_parts(after);
    let tail = word.skip(6);
    assert(rest.subrange(0, 7) == "hermit:"@);
    assert(word.subrange(0, 6) == "ignore"@);
    assert(word =~= "ignore"@ + tail);
    assert(rest =~= "hermit:"@ + after);
    let found = first_directive(text)->0;
    let whole = head + found.matched;
    assert(text.subrange(0, whole.len() as int) == whole);
    assert(head =~= text.subrange(0, head.len() as int)) by {
        assert(head =~= whole.subrange(0, head.len() as int));
    }
    assert(text =~= head + rest);
    assert(text =~= head + "hermit:"@ + gap + "ignore"@ + tail);
    (head, gap, tail)
}

/// A rule in brackets counts without the white space around it, and brackets with nothing but
/// white space between them name no rule.
pub proof fn lemma_rule_between_brackets(before: Seq<char>, name: Seq<char>, after: Seq<char>)
    requires
        blank(before),
        blank(after),
        solid(name),
    ensures
        directive_for_rule(None) == Directive::All,
        directive_for_rule(Some(before + name + after)) == if name.len() == 0 {
            Directive::All
        } else {
            Directive::Specific(name)
        },
{
    lemma_trimmed_between(before, name, after);
}

/// White space around a comment does not matter: a line says what the comment in it says,
/// however deep it is indented.
pub proof fn lemma_indented_comment(
    before: Seq<char>,
    comment: Seq<char>,
    after: Seq<char>,
    prefix: Seq<char>,
    suffix: Seq<char>,
)
    requires
        blank(before),
        blank(after),
    ensures
        comment_body(before + comment + after, prefix, suffix) == comment_body(
            comment,
            prefix,
            suffix,
        ),
        ignore_directive(before + comment + after, prefix, suffix) == ignore_directive(
            comment,
            prefix,
            suffix,
        ),
{
    let (x, y) = lemma_trimmed_parts(comment);
    let core = trimmed(comment);
    let start = before + x;
    let end = y + after;
    assert(blank(start)) by {
        assert forall|i: int| 0 <= i < start.len() implies white_space(#[trigger] start[i]) by {
            if i < before.len() {
                assert(white_space(before[i]));
            } else {
                assert(white_space(x[i - before.len()]));
            }
        }
    }
    assert(blank(end)) by {
        assert forall|i: int| 0 <= i < end.len() implies white_space(#[trigger] end[i]) by {
            if i < y.len() {
                assert(white_space(y[i]));
            } else {
                assert(white_space(after[i - y.len()]));
            }
        }
    }
    lemma_trimmed_between(start, core, end);
    assert(before + comment + after =~= start + core + end);
}

/// A line that is white space, the opening of a comment, a text, the closing of the comment
/// and white space says that text, without the white space around it.
pub proof fn lemma_comment_says(
    before: Seq<char>,
    prefix: Seq<char>,
    inner: Seq<char>,
    suffix: Seq<char>,
    after: Seq<char>,
)
    requires
        blank(before),
        blank(after),
        prefix.len() > 0 && solid(prefix),
        solid(suffix),
    ensures
        comment_body(before + prefix + inner + suffix + after, prefix, suffix) == Some(
            trimmed(inner),
        ),
{
    let comment = prefix + inner + suffix;
    assert(before + prefix + inner + suffix + after =~= before + comment + after);
    lemma_indented_comment(before, comment, after, prefix, suffix);
    if suffix.len() > 0 {
        assert(solid(comment)) by {
            assert(comment.last() == suffix.last());
        }
        let none = Seq::<char>::empty();
        lemma_trimmed_between(none, comment, none);
        assert(none + comment + none =~= comment);
        assert(comment.subrange(0, prefix.len() as int) =~= prefix);
        let rest = comment.skip(prefix.len() as int);
        assert(rest =~= inner + suffix);
        assert(rest.subrange(rest.len() - suffix.len(), rest.len() as int) =~= suffix);
        assert(rest.take(rest.len() - suffix.len()) =~= inner);
    } else {
        let none = Seq::<char>::empty();
        assert(comment =~= none + prefix + inner);
        lemma_trimmed_around_core(none, prefix, inner);
        let rest = trimmed_end(inner);
        assert(trimmed(comment) =~= prefix + rest);
        assert(trimmed(comment).subrange(0, prefix.len() as int) =~= prefix);
        assert(trimmed(comment).skip(prefix.len() as int) =~= rest);
        assert(rest.subrange(rest.len() as int, rest.len() as int) =~= suffix);
        assert(rest.take(rest.len() - suffix.len()) =~= rest);
        lemma_trimmed_in_parts(inner);
    }
}

/// A line that says something as a comment is white space, the opening of a comment, a text,
/// the closing of the comment and white space.
pub proof fn lemma_comment_parts(line: Seq<char>, prefix: Seq<char>, suffix: Seq<char>) -> (parts: (
    Seq<char>,
    Seq<char>,
    Seq<char>,
))
    requires
        comment_body(line, prefix, suffix) is Some,
    ensures
        blank(parts.0),
        blank(parts.2),
        line == parts.0 + prefix + parts.1 + suffix + parts.2,
        comment_body(line, prefix, suffix) == Some(trimmed(parts.1)),
{
    let (before, after) = lemma_trimmed_parts(line);
    let comment = trimmed(line);
    let rest = comment.skip(prefix.len() as int);
    let inner = rest.take(rest.len() - suffix.len());
    assert(comment.subrange(0, prefix.len() as int) == prefix);
    assert(rest.subrange(rest.len() - suffix.len(), rest.len() as int) == suffix);
    assert(rest =~= inner + suffix);
    assert(comment =~= prefix + inner + suffix);
    assert(line =~= before + prefix + inner + suffix + after);
    (before, inner, after)
}

/// The directive that a written rule asks for.
pub open spec fn asked_for(rule: Option<Seq<char>>) -> Directive {
    match rule {
        Some(name) if !blank(name) => Directive::Specific(trimmed(name)),
        _ => Directive::All,
    }
}

proof fn lemma_asked_for(rule: Option<Seq<char>>)
    ensures
        directive_for_rule(rule) == asked_for(rule),
{
    if let Some(name) = rule {
        let (before, after) = lemma_trimmed_parts(name);
        if blank(name) {
            let none = Seq::<char>::empty();
            lemma_trimmed_between(name, none, none);
            assert(name + none + none =~= name);
        } else if trimmed(name).len() == 0 {
            assert(name =~= before + after);
            assert forall|i: int| 0 <= i < name.len() implies white_space(#[trigger] name[i]) by {
                if i < before.len() {
                    assert(white_space(before[i]));
                } else {
                    assert(white_space(after[i - before.len()]));
                }
            }
        }
    }
}

/// A comment with a directive in it holds that directive: with words before it and behind it,
/// indented or not, with a rule in brackets or none.
pub proof fn lemma_comment_with_directive(
    before: Seq<char>,
    prefix: Seq<char>,
    head: Seq<char>,
    gap: Seq<char>,
    space: Seq<char>,
    rule: Option<Seq<char>>,
    rest: Seq<char>,
    suffix: Seq<char>,
    after: Seq<char>,
)
    requires
        blank(before),
        blank(after),
        blank(gap),
        blank(space),
        prefix.len() > 0 && solid(prefix),
        solid(suffix),
        !contains_text(head, "hermit:"@),
        rule matches Some(name) ==> !name.contains(']'),
        rule is None ==> adds_no_rule(rest),
    ensures
        ignore_directive(
            before + prefix + (head + directive_text(gap, space, rule) + rest) + suffix + after,
            prefix,
            suffix,
        ) == Some(asked_for(rule)),
{
    reveal_strlit("hermit:");
    reveal_strlit("ignore");
    reveal_strlit("[");
    reveal_strlit("]");
    reveal_strlit("");
    let text = directive_text(gap, space, rule);
    let inner = head + text + rest;
    lemma_comment_says(before, prefix, inner, suffix, after);
    lemma_asked_for(rule);
    assert(text.first() == 'h');
    assert(text.last() == 'e' || text.last() == ']');
    lemma_trimmed_around_core(head, text, rest);
    let start = trimmed_start(head);
    let end = trimmed_end(rest);
    let x = lemma_start_parts(head);
    let y = lemma_end_parts(rest);
    assert(!contains_text(start, "hermit:"@)) by {
        if contains_text(start, "hermit:"@) {
            assert(start =~= head.subrange(x.len() as int, head.len() as int));
            lemma_part_contains(head, x.len() as int, head.len() as int, "hermit:"@);
        }
    }
    match rule {
        Some(name) => {
            lemma_directive_with_rule(start, gap, space, name, end);
            assert("hermit:"@ + gap + "ignore"@ + space + "["@ + name + "]"@ =~= text);
        },
        None => {
            assert(adds_no_rule(end)) by {
                lemma_no_rule_when_trimmed(rest);
            }
            lemma_directive_without_rule(start, gap, end);
            assert("hermit:"@ + gap + "ignore"@ =~= text);
        },
    }
}

proof fn lemma_no_rule_when_trimmed(rest: Seq<char>)
    requires
        adds_no_rule(rest),
    ensures
        adds_no_rule(trimmed_end(rest)),
{
    reveal_strlit("[");
    let end = trimmed_end(rest);
    let y = lemma_end_parts(rest);
    if end.contains(']') {
        let i = choose|i: int| 0 <= i < end.len() && end[i] == ']';
        assert(rest[i] == ']');
        let x = lemma_start_parts(end);
        let word = trimmed_start(end);
        if "["@.is_prefix_of(word) {
            assert(word.subrange(0, 1)[0] == word[0]);
            assert(rest =~= x + (word + y));
            assert((word + y).first() == word.first());
            lemma_trimmed_start_of(x, word + y);
            assert((word + y).subrange(0, 1) =~= "["@);
        }
    }
}

/// A line of code with a comment behind it, and a directive in that comment: the code is what
/// stands before the comment, and the directive is that of the comment.
pub proof fn lemma_code_with_directive(
    code: Seq<char>,
    prefix: Seq<char>,
    head: Seq<char>,
    gap: Seq<char>,
    space: Seq<char>,
    rule: Option<Seq<char>>,
    rest: Seq<char>,
    suffix: Seq<char>,
    after: Seq<char>,
)
    requires
        blank(after),
        blank(gap),
        blank(space),
        prefix.len() > 0 && solid(prefix),
        solid(suffix),
        !contains_text(code + prefix + head, "hermit:"@),
        rule matches Some(name) ==> !name.contains(']'),
        rule is None ==> adds_no_rule(rest),
        // code stands before the comment, which is the last to open before the directive
        !blank(code),
        !prefix.is_prefix_of(trimmed_start(code + prefix)),
        forall|i: int| #[trigger]
            occurs_at(code + prefix + head, prefix, i) ==> i <= code.len(),
    ensures
        inline_ignore(
            code + prefix + (head + directive_text(gap, space, rule) + rest) + suffix + after,
            prefix,
            suffix,
        ) == Some((code, asked_for(rule))),
{
    let text = directive_text(gap, space, rule);
    let inner = head + text + rest;
    let comment = prefix + inner + suffix + after;
    let line = code + prefix + inner + suffix + after;
    let start = code + prefix + head;
    let more = inner + suffix + after;
    let none = Seq::<char>::empty();
    let n = code.len() as int;
    assert(first_directive(line) matches Some(found) && found.before == start) by {
        let left = rest + suffix + after;
        lemma_found_behind(start, gap, space, rule, left);
        assert(line =~= start + text + left);
    }
    assert(last_occurrence(start, prefix) == Some(n)) by {
        lemma_last_opening(code, prefix, head);
    }
    assert(line.take(n) =~= code);
    assert(line.skip(n) =~= comment);
    assert(ignore_directive(comment, prefix, suffix) == Some(asked_for(rule))) by {
        if contains_text(head, "hermit:"@) {
            let m = n + prefix.len();
            assert(head =~= start.subrange(m, start.len() as int));
            lemma_part_contains(start, m, start.len() as int, "hermit:"@);
        }
        lemma_comment_with_directive(none, prefix, head, gap, space, rule, rest, suffix, after);
        assert(none + prefix + inner + suffix + after =~= comment);
    }
    lemma_code_is_left(code);
    assert(!prefix.is_prefix_of(trimmed(line))) by {
        lemma_line_opens_with_code(code, prefix, more);
        assert(line =~= code + prefix + more);
    }
}

proof fn lemma_found_behind(
    start: Seq<char>,
    gap: Seq<char>,
    space: Seq<char>,
    rule: Option<Seq<char>>,
    rest: Seq<char>,
)
    requires
        blank(gap),
        !contains_text(start, "hermit:"@),
    ensures
        first_directive(start + directive_text(gap, space, rule) + rest) matches Some(found)
            && found.before == start,
{
    let bracketed = match rule {
        Some(name) => space + "["@ + name + "]"@,
        None => ""@,
    };
    let tail = bracketed + rest;
    let written = "hermit:"@ + gap + "ignore"@ + tail;
    lemma_word_behind_keyword(gap, tail);
    assert(start + directive_text(gap, space, rule) + rest =~= start + written);
    lemma_directive_behind(start, written);
}

proof fn lemma_last_opening(code: Seq<char>, prefix: Seq<char>, head: Seq<char>)
    requires
        forall|i: int| #[trigger]
            occurs_at(code + prefix + head, prefix, i) ==> i <= code.len(),
    ensures
        last_occurrence(code + prefix + head, prefix) == Some(code.len() as int),
{
    let start = code + prefix + head;
    let n = code.len() as int;
    assert(occurs_at(start, prefix, n)) by {
        assert(start.subrange(n, n + prefix.len()) =~= prefix);
    }
    lemma_greatest_is_last(start, prefix, n);
}

proof fn lemma_greatest_is_last(s: Seq<char>, part: Seq<char>, n: int)
    requires
        occurs_at(s, part, n),
        forall|i: int| #[trigger] occurs_at(s, part, i) ==> i <= n,
    ensures
        last_occurrence(s, part) == Some(n),
{
    lemma_last_occurrence(s, part);
    if last_occurrence(s, part) is None {
        assert(contains_text(s, part));
    }
}

proof fn lemma_code_is_left(code: Seq<char>)
    requires
        !blank(code),
    ensures
        trimmed(code).len() > 0,
{
    let (x, y) = lemma_trimmed_parts(code);
    if trimmed(code).len() == 0 {
        assert(code =~= x + y);
        assert forall|i: int| 0 <= i < code.len() implies white_space(#[trigger] code[i]) by {
            if i < x.len() {
                assert(white_space(x[i]));
            } else {
                assert(white_space(y[i - x.len()]));
            }
        }
    }
}

proof fn lemma_line_opens_with_code(code: Seq<char>, prefix: Seq<char>, more: Seq<char>)
    requires
        !blank(code),
        !prefix.is_prefix_of(trimmed_start(code + prefix)),
    ensures
        !prefix.is_prefix_of(trimmed(code + prefix + more)),
{
    let x = lemma_start_parts(code);
    let word = trimmed_start(code);
    if word.len() == 0 {
        assert(code =~= x);
    }
    let y = word + prefix;
    assert(code + prefix =~= x + y);
    assert(y.first() == word.first());
    lemma_trimmed_start_of(x, y);
    assert(code + prefix + more =~= x + (y + more));
    assert((y + more).first() == word.first());
    lemma_trimmed_start_of(x, y + more);
    let whole = trimmed_end(y + more);
    let z = lemma_end_parts(y + more);
    if prefix.is_prefix_of(whole) {
        let k = prefix.len() as int;
        assert(whole.subrange(0, k) =~= (y + more).subrange(0, k));
        assert((y + more).subrange(0, k) =~= y.subrange(0, k));
    }
}

/// A line that holds a directive is one comment, with the keyword in it and `ignore` behind
/// that and white space. No other line holds one.
pub proof fn lemma_directive_is_in_comment(
    line: Seq<char>,
    prefix: Seq<char>,
    suffix: Seq<char>,
) -> (parts: (Seq<char>, Seq<char>, Seq<char>, Seq<char>))
    requires
        ignore_directive(line, prefix, suffix) is Some,
    ensures
        blank(parts.0),
        blank(parts.3),
        line == parts.0 + prefix + parts.1 + suffix + parts.3,
        blank(parts.2),
        contains_text(parts.1, "hermit:"@ + parts.2 + "ignore"@),
{
    let (before, inner, after) = lemma_comment_parts(line, prefix, suffix);
    let body = trimmed(inner);
    let (head, gap, tail) = lemma_found_directive_is_written(body);
    let written = "hermit:"@ + gap + "ignore"@;
    assert(body =~= head + written + tail);
    lemma_contains_parts(head, written, tail);
    lemma_trimmed_contains(inner, written);
    (before, inner, gap, after)
}

/// A directive behind code stands in a comment that ends the line: the code is the start of
/// the line, it is more than white space, it does not start with a comment, and the rest of
/// the line is a comment that holds the directive.
pub proof fn lemma_inline_directive_is_behind_code(
    line: Seq<char>,
    prefix: Seq<char>,
    suffix: Seq<char>,
)
    requires
        inline_ignore(line, prefix, suffix) is Some,
    ensures
        inline_ignore(line, prefix, suffix) matches Some((code, directive)) && {
            &&& code.len() <= line.len()
            &&& line == code + line.skip(code.len() as int)
            &&& !blank(code)
            &&& !prefix.is_prefix_of(trimmed(line))
            &&& ignore_directive(line.skip(code.len() as int), prefix, suffix) == Some(directive)
        },
{
    let found = first_directive(line)->0;
    lemma_first_directive_is_part(line);
    lemma_last_occurrence(found.before, prefix);
    let n = last_occurrence(found.before, prefix)->0;
    let whole = found.before + found.matched;
    assert(n <= line.len());
    let code = line.take(n);
    assert(line =~= code + line.skip(n));
    if blank(code) {
        let none = Seq::<char>::empty();
        lemma_trimmed_between(code, none, none);
        assert(code + none + none =~= code);
    }
}

/// A directive is seen as what it asks for.
pub proof fn lemma_directive_view(directive: Option<IgnoreDirective>)
    ensures
        match directive {
            Some(IgnoreDirective::All) => directive_view(directive) == Some(Directive::All),
            Some(IgnoreDirective::Specific(rule)) => directive_view(directive) == Some(
                Directive::Specific(rule@),
            ),
            None => directive_view(directive) is None,
        },
{
}

} // verus!
