//! Comments that tell `hermit` to ignore a line, or one rule on a line.

use vstd::prelude::*;
use vstd::slice::slice_subrange;

use crate::grammar::{
    first_directive, lemma_directive_by_itself, lemma_directive_needs_keyword,
    lemma_first_directive_is_part, lemma_usual_directive, usual_directive, KEYWORD,
};
use crate::patterns::{Pattern, IGNORE};
use crate::text::{
    contains_text, ends_with, find_last, last_occurrence, lemma_part_contains,
    lemma_trimmed_contains, starts_with, to_chars, to_text, trim, trimmed,
};

verus! {

/// How a comment is written: what opens it, and what closes it where that is needed.
#[derive(Debug, Clone, Copy)]
pub struct CommentStyle {
    pub prefix: &'static str,
    pub suffix: &'static str,
}

/// What a directive asks to ignore: every rule, or the one that it names.
#[derive(Debug)]
pub enum IgnoreDirective {
    All,
    Specific(String),
}

/// An `IgnoreDirective` with its rule as characters.
pub enum Directive {
    All,
    Specific(Seq<char>),
}

impl View for IgnoreDirective {
    type V = Directive;

    open spec fn view(&self) -> Directive {
        match self {
            IgnoreDirective::All => Directive::All,
            IgnoreDirective::Specific(rule) => Directive::Specific(rule@),
        }
    }
}

/// The view of a directive that may be absent.
pub open spec fn directive_view(directive: Option<IgnoreDirective>) -> Option<Directive> {
    match directive {
        Some(d) => Some(d@),
        None => None,
    }
}

/// What a line that is one comment says: the text between the opening and the closing of
/// the comment, without white space around it. `None` for a line that is no such comment.
pub open spec fn comment_body(line: Seq<char>, prefix: Seq<char>, suffix: Seq<char>) -> Option<
    Seq<char>,
> {
    let comment = trimmed(line);
    let rest = comment.skip(prefix.len() as int);
    if prefix.is_prefix_of(comment) && suffix.is_suffix_of(rest) {
        Some(trimmed(rest.take(rest.len() - suffix.len())))
    } else {
        None
    }
}

/// The directive that names the rule in a bracketed group, if there is a group. White
/// space around the rule does not count, and brackets without a rule name none.
pub open spec fn directive_for_rule(rule: Option<Seq<char>>) -> Directive {
    match rule {
        Some(text) if trimmed(text).len() > 0 => Directive::Specific(trimmed(text)),
        _ => Directive::All,
    }
}

/// The directive in the text of a comment.
pub open spec fn directive_in(body: Seq<char>) -> Option<Directive> {
    match first_directive(body) {
        Some(found) => Some(directive_for_rule(found.rule)),
        None => None,
    }
}

/// The directive that a line holds, where the line is one comment with a directive in it.
pub open spec fn ignore_directive(line: Seq<char>, prefix: Seq<char>, suffix: Seq<char>) -> Option<
    Directive,
> {
    match comment_body(line, prefix, suffix) {
        Some(body) => directive_in(body),
        None => None,
    }
}

/// Where the comment opens that ends a line of code and holds a directive, given the text
/// before the directive. There is none where the line is one comment, where no comment
/// opens before the directive, or where nothing but white space stands before the comment.
pub open spec fn trailing_comment(
    line: Seq<char>,
    prefix: Seq<char>,
    before_directive: Seq<char>,
) -> Option<int> {
    match last_occurrence(before_directive, prefix) {
        Some(position) if !prefix.is_prefix_of(trimmed(line)) && trimmed(line.take(position)).len()
            > 0 => Some(position),
        _ => None,
    }
}

/// The code on a line that ends with a directive in a comment, and the directive.
pub open spec fn inline_ignore(line: Seq<char>, prefix: Seq<char>, suffix: Seq<char>) -> Option<
    (Seq<char>, Directive),
> {
    match first_directive(line) {
        Some(found) => match trailing_comment(line, prefix, found.before) {
            Some(position) => match ignore_directive(line.skip(position), prefix, suffix) {
                Some(directive) => Some((line.take(position), directive)),
                None => None,
            },
            None => None,
        },
        None => None,
    }
}

/// The line holds no directive.
pub open spec fn free_of_directives(line: Seq<char>, prefix: Seq<char>, suffix: Seq<char>) -> bool {
    &&& inline_ignore(line, prefix, suffix) is None
    &&& ignore_directive(line, prefix, suffix) is None
}

/// The directive that a line holds, where the line is one comment that says nothing but a
/// directive in its usual form.
pub open spec fn usual_comment(line: Seq<char>, prefix: Seq<char>, suffix: Seq<char>) -> Option<
    Directive,
> {
    match comment_body(line, prefix, suffix) {
        Some(body) => match usual_directive(body) {
            Some(rule) => Some(directive_for_rule(rule)),
            None => None,
        },
        None => None,
    }
}

/// What a comment says stands in its line.
proof fn lemma_comment_contains(
    line: Seq<char>,
    prefix: Seq<char>,
    suffix: Seq<char>,
    part: Seq<char>,
)
    requires
        comment_body(line, prefix, suffix) matches Some(body) && contains_text(body, part),
    ensures
        contains_text(line, part),
{
    let comment = trimmed(line);
    let rest = comment.skip(prefix.len() as int);
    let inner = rest.take(rest.len() - suffix.len());
    lemma_trimmed_contains(inner, part);
    assert(inner =~= comment.subrange(prefix.len() as int, comment.len() - suffix.len()));
    lemma_part_contains(comment, prefix.len() as int, comment.len() - suffix.len(), part);
    lemma_trimmed_contains(line, part);
}

/// A line without the keyword holds no directive.
pub proof fn lemma_directives_need_keyword(line: Seq<char>, prefix: Seq<char>, suffix: Seq<char>)
    requires
        !contains_text(line, KEYWORD@),
    ensures
        free_of_directives(line, prefix, suffix),
{
    lemma_directive_needs_keyword(line);
    if let Some(body) = comment_body(line, prefix, suffix) {
        if contains_text(body, KEYWORD@) {
            lemma_comment_contains(line, prefix, suffix, KEYWORD@);
        }
        lemma_directive_needs_keyword(body);
    }
}

/// A comment that says nothing but a directive in its usual form holds that directive.
pub proof fn lemma_usual_comment_is_read(line: Seq<char>, prefix: Seq<char>, suffix: Seq<char>)
    requires
        usual_comment(line, prefix, suffix) is Some,
    ensures
        ignore_directive(line, prefix, suffix) == usual_comment(line, prefix, suffix),
{
    lemma_usual_directive(comment_body(line, prefix, suffix)->0);
}

/// What a line that is one comment says.
pub fn read_comment(line: &str, style: &CommentStyle) -> (body: Option<String>)
    ensures
        match body {
            Some(text) => comment_body(line@, style.prefix@, style.suffix@) == Some(text@),
            None => comment_body(line@, style.prefix@, style.suffix@) is None,
        },
{
    let chars = to_chars(line);
    let comment = trim(chars.as_slice());
    if !starts_with(comment, style.prefix) {
        return None;
    }
    let prefix_len = style.prefix.unicode_len();
    let rest = slice_subrange(comment, prefix_len, comment.len());
    assert(rest@ == comment@.skip(prefix_len as int));
    if !ends_with(rest, style.suffix) {
        return None;
    }
    let end = rest.len() - style.suffix.unicode_len();
    Some(to_text(trim(slice_subrange(rest, 0, end))))
}

/// The directive that names the rule in a bracketed group, if there is a group.
pub fn directive_from_rule(rule: Option<&str>) -> (directive: IgnoreDirective)
    ensures
        directive@ == directive_for_rule(
            match rule {
                Some(text) => Some(text@),
                None => None,
            },
        ),
{
    match rule {
        Some(text) => {
            let chars = to_chars(text);
            let name = trim(chars.as_slice());
            if name.len() == 0 {
                IgnoreDirective::All
            } else {
                IgnoreDirective::Specific(to_text(name))
            }
        },
        None => IgnoreDirective::All,
    }
}

/// Where the comment opens that ends a line of code and holds a directive.
pub fn find_trailing_comment(line: &str, style: &CommentStyle, before_directive: &str) -> (r:
    Option<usize>)
    requires
        before_directive@.is_prefix_of(line@),
    ensures
        match r {
            Some(position) => {
                &&& trailing_comment(line@, style.prefix@, before_directive@) == Some(
                    position as int,
                )
                &&& position <= line@.len()
            },
            None => trailing_comment(line@, style.prefix@, before_directive@) is None,
        },
{
    let chars = to_chars(line);
    if starts_with(trim(chars.as_slice()), style.prefix) {
        return None;
    }
    let before = to_chars(before_directive);
    match find_last(before.as_slice(), style.prefix) {
        Some(position) => {
            let code = slice_subrange(chars.as_slice(), 0, position);
            assert(code@ == line@.take(position as int));
            if trim(code).len() == 0 {
                None
            } else {
                Some(position)
            }
        },
        None => None,
    }
}

/// The directive that a line holds, where the line is one comment with a directive in it.
/// `ignore` is the compiled pattern `IGNORE`.
pub(crate) fn read_ignore_directive(line: &str, style: &CommentStyle, ignore: &Pattern) -> (directive:
    Option<IgnoreDirective>)
    requires
        ignore@ == IGNORE@,
    ensures
        directive_view(directive) == ignore_directive(line@, style.prefix@, style.suffix@),
{
    let body = match read_comment(line, style) {
        Some(body) => body,
        None => return None,
    };
    match ignore.find(body.as_str()) {
        Some((before, matched)) => {
            proof {
                lemma_first_directive_is_part(body@);
                lemma_directive_by_itself(body@.skip(before@.len() as int));
            }
            let group = match ignore.captures(matched.as_str()) {
                Some(group) => group,
                None => None,
            };
            let directive = match &group {
                Some(rule) => directive_from_rule(Some(rule.as_str())),
                None => directive_from_rule(None),
            };
            Some(directive)
        },
        None => None,
    }
}

/// The code on a line that ends with a directive in a comment, and the directive.
/// `ignore` is the compiled pattern `IGNORE`.
pub(crate) fn cut_inline_ignore<'a>(line: &'a str, style: &CommentStyle, ignore: &Pattern) -> (r: Option<
    (&'a str, IgnoreDirective),
>)
    requires
        ignore@ == IGNORE@,
    ensures
        match r {
            Some((code, directive)) => inline_ignore(line@, style.prefix@, style.suffix@) == Some(
                (code@, directive@),
            ),
            None => inline_ignore(line@, style.prefix@, style.suffix@) is None,
        },
        r matches Some((code, _)) ==> code@.is_prefix_of(line@) && trimmed(code@).len() > 0,
{
    let (before, matched) = match ignore.find(line) {
        Some(found) => found,
        None => return None,
    };
    proof {
        lemma_first_directive_is_part(line@);
        assert(before@ =~= line@.subrange(0, before@.len() as int)) by {
            assert(before@ =~= (before@ + matched@).subrange(0, before@.len() as int));
        }
    }
    let position = match find_trailing_comment(line, style, before.as_str()) {
        Some(position) => position,
        None => return None,
    };
    let comment = line.substring_char(position, line.unicode_len());
    assert(comment@ == line@.skip(position as int));
    match read_ignore_directive(comment, style, ignore) {
        Some(directive) => {
            let code = line.substring_char(0, position);
            assert(code@ == line@.take(position as int));
            Some((code, directive))
        },
        None => None,
    }
}

/// The directive that a line holds, where the line is one comment with a directive in it.
pub fn is_ignore_directive(line: &str, style: &CommentStyle) -> (directive: Option<
    IgnoreDirective,
>)
    ensures
        directive_view(directive) == ignore_directive(line@, style.prefix@, style.suffix@),
{
    read_ignore_directive(line, style, &Pattern::compile(IGNORE))
}

/// The code on a line that ends with a directive in a comment, and the directive.
pub fn split_inline_ignore<'a>(line: &'a str, style: &CommentStyle) -> (r: Option<
    (&'a str, IgnoreDirective),
>)
    ensures
        match r {
            Some((code, directive)) => inline_ignore(line@, style.prefix@, style.suffix@) == Some(
                (code@, directive@),
            ),
            None => inline_ignore(line@, style.prefix@, style.suffix@) is None,
        },
        r matches Some((code, _)) ==> code@.is_prefix_of(line@) && trimmed(code@).len() > 0,
{
    cut_inline_ignore(line, style, &Pattern::compile(IGNORE))
}

} // verus!
