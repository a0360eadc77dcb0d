//! What the functions on text promise, in terms of the parts that a text is made of.

use vstd::prelude::*;

use crate::text::{
    before_first, contains_text, cut_at_first, first_position, first_word, lemma_first_line,
    lemma_first_of_character, lemma_first_position, lemma_trimmed_start, occurs_at, replaced,
    stripped, stripped_end, stripped_start, text_lines, trimmed, trimmed_end, trimmed_start,
    until_white_space, white_space, without_leading,
};

verus! {

/// The text is white space from end to end.
pub open spec fn blank(s: Seq<char>) -> bool {
    forall|i: int| 0 <= i < s.len() ==> white_space(#[trigger] s[i])
}

/// The text starts and ends with characters that are no white space, or is empty.
pub open spec fn solid(s: Seq<char>) -> bool {
    s.len() > 0 ==> !white_space(s.first()) && !white_space(s.last())
}

/// The text consists of copies of one character.
pub open spec fn copies_of(s: Seq<char>, c: char) -> bool {
    forall|i: int| 0 <= i < s.len() ==> #[trigger] s[i] == c
}

/// White space is the tab, the line feed, the vertical tab, the form feed, the carriage
/// return, the space, the next-line character, and the Unicode spaces and separators.
pub proof fn lemma_white_space_characters(c: char)
    ensures
        white_space(c) <==> {
            let n = c as int;
            ||| n == 9 || n == 10 || n == 11 || n == 12 || n == 13
            ||| n == 32 || n == 133 || n == 160 || n == 5760
            ||| n == 8192 || n == 8193 || n == 8194 || n == 8195 || n == 8196 || n == 8197
            ||| n == 8198 || n == 8199 || n == 8200 || n == 8201 || n == 8202
            ||| n == 8232 || n == 8233 || n == 8239 || n == 8287 || n == 12288
        },
{
}

/// White space before a text does not matter to what is trimmed at its start.
pub proof fn lemma_trimmed_start_of(before: Seq<char>, rest: Seq<char>)
    requires
        blank(before),
    ensures
        trimmed_start(before + rest) == trimmed_start(rest),
        trimmed(before + rest) == trimmed(rest),
        rest.len() > 0 && !white_space(rest.first()) ==> trimmed_start(before + rest) == rest,
        rest.len() == 0 ==> trimmed_start(before + rest).len() == 0,
    decreases before.len(),
{
    let s = before + rest;
    if before.len() > 0 {
        assert(s.first() == before[0]);
        assert(white_space(before[0]));
        assert(blank(before.drop_first())) by {
            assert forall|i: int| 0 <= i < before.drop_first().len() implies white_space(
                #[trigger] before.drop_first()[i],
            ) by {
                assert(white_space(before[i + 1]));
            }
        }
        assert(s.drop_first() =~= before.drop_first() + rest);
        lemma_trimmed_start_of(before.drop_first(), rest);
    } else {
        assert(s =~= rest);
    }
}

/// White space behind a text does not matter to what is trimmed at its end.
pub proof fn lemma_trimmed_end_of(rest: Seq<char>, after: Seq<char>)
    requires
        blank(after),
    ensures
        trimmed_end(rest + after) == trimmed_end(rest),
        rest.len() > 0 && !white_space(rest.last()) ==> trimmed_end(rest + after) == rest,
        rest.len() == 0 ==> trimmed_end(rest + after).len() == 0,
    decreases after.len(),
{
    let s = rest + after;
    if after.len() > 0 {
        assert(s.last() == after[after.len() - 1]);
        assert(white_space(after[after.len() - 1]));
        assert(blank(after.drop_last())) by {
            assert forall|i: int| 0 <= i < after.drop_last().len() implies white_space(
                #[trigger] after.drop_last()[i],
            ) by {
                assert(white_space(after[i]));
            }
        }
        assert(s.drop_last() =~= rest + after.drop_last());
        lemma_trimmed_end_of(rest, after.drop_last());
    } else {
        assert(s =~= rest);
    }
}

/// Trimming takes the white space at both ends, and nothing else.
pub proof fn lemma_trimmed_between(before: Seq<char>, core: Seq<char>, after: Seq<char>)
    requires
        blank(before),
        blank(after),
        solid(core),
    ensures
        trimmed(before + core + after) == core,
{
    assert(before + core + after =~= before + (core + after));
    if core.len() == 0 {
        assert(core + after =~= after);
        assert(after + core =~= after);
        lemma_trimmed_start_of(before, after);
        lemma_trimmed_start_of(after, core);
        assert(trimmed(after).len() == 0);
        assert(trimmed(before + core + after) =~= core);
    } else {
        assert((core + after).first() == core.first());
        lemma_trimmed_start_of(before, core + after);
        lemma_trimmed_end_of(core, after);
    }
}

/// Every text is what is trimmed of it, with white space on both sides.
pub proof fn lemma_trimmed_parts(s: Seq<char>) -> (parts: (Seq<char>, Seq<char>))
    ensures
        blank(parts.0),
        blank(parts.1),
        solid(trimmed(s)),
        s == parts.0 + trimmed(s) + parts.1,
{
    let before = lemma_start_parts(s);
    let t = trimmed_start(s);
    let after = lemma_end_parts(t);
    let u = trimmed_end(t);
    lemma_trimmed_start(s);
    if u.len() > 0 {
        assert(u.first() == t.first());
    }
    assert(s =~= before + u + after);
    (before, after)
}

/// Every text is white space and what is left when its start is trimmed.
pub proof fn lemma_start_parts(s: Seq<char>) -> (before: Seq<char>)
    ensures
        blank(before),
        s == before + trimmed_start(s),
        trimmed_start(s).len() > 0 ==> !white_space(trimmed_start(s).first()),
    decreases s.len(),
{
    if s.len() > 0 && white_space(s.first()) {
        let more = lemma_start_parts(s.drop_first());
        let before = seq![s.first()] + more;
        let kept = trimmed_start(s);
        assert(s.drop_first() == more + kept);
        assert(s =~= seq![s.first()] + (more + kept));
        assert(s =~= before + kept);
        before
    } else {
        assert(s =~= Seq::<char>::empty() + s);
        Seq::empty()
    }
}

/// Every text is what is left when its end is trimmed, and white space.
pub proof fn lemma_end_parts(s: Seq<char>) -> (after: Seq<char>)
    ensures
        blank(after),
        s == trimmed_end(s) + after,
        trimmed_end(s).len() > 0 ==> !white_space(trimmed_end(s).last()),
    decreases s.len(),
{
    if s.len() > 0 && white_space(s.last()) {
        let more = lemma_end_parts(s.drop_last());
        let after = more.push(s.last());
        let kept = trimmed_end(s);
        assert(s.drop_last() == kept + more);
        assert(s =~= (kept + more).push(s.last()));
        assert(s =~= kept + after);
        after
    } else {
        assert(s =~= s + Seq::<char>::empty());
        Seq::empty()
    }
}

proof fn lemma_stripped_start_of(before: Seq<char>, rest: Seq<char>, c: char)
    requires
        copies_of(before, c),
        rest.len() > 0 ==> rest.first() != c,
    ensures
        stripped_start(before + rest, c) == rest,
    decreases before.len(),
{
    let s = before + rest;
    if before.len() > 0 {
        assert(s.first() == before[0]);
        assert(copies_of(before.drop_first(), c)) by {
            assert forall|i: int| 0 <= i < before.drop_first().len() implies
                #[trigger] before.drop_first()[i] == c by {
                assert(before[i + 1] == c);
            }
        }
        assert(s.drop_first() =~= before.drop_first() + rest);
        lemma_stripped_start_of(before.drop_first(), rest, c);
    } else {
        assert(s =~= rest);
    }
}

proof fn lemma_stripped_end_of(rest: Seq<char>, after: Seq<char>, c: char)
    requires
        copies_of(after, c),
        rest.len() > 0 ==> rest.last() != c,
    ensures
        stripped_end(rest + after, c) == rest,
    decreases after.len(),
{
    let s = rest + after;
    if after.len() > 0 {
        assert(s.last() == after[after.len() - 1]);
        assert(copies_of(after.drop_last(), c)) by {
            assert forall|i: int| 0 <= i < after.drop_last().len() implies
                #[trigger] after.drop_last()[i] == c by {
                assert(after[i] == c);
            }
        }
        assert(s.drop_last() =~= rest + after.drop_last());
        lemma_stripped_end_of(rest, after.drop_last(), c);
    } else {
        assert(s =~= rest);
    }
}

/// Stripping a character takes its copies at both ends, and nothing else.
pub proof fn lemma_stripped_between(before: Seq<char>, core: Seq<char>, after: Seq<char>, c: char)
    requires
        copies_of(before, c),
        copies_of(after, c),
        core.len() > 0 ==> core.first() != c && core.last() != c,
    ensures
        stripped(before + core + after, c) == core,
{
    assert(before + core + after =~= before + (core + after));
    if core.len() == 0 {
        let all = before + after;
        assert(before + core + after =~= all + core);
        assert(copies_of(all, c)) by {
            assert forall|i: int| 0 <= i < all.len() implies #[trigger] all[i] == c by {
                if i < before.len() {
                    assert(before[i] == c);
                } else {
                    assert(after[i - before.len()] == c);
                }
            }
        }
        lemma_stripped_start_of(all, core, c);
        assert(core =~= Seq::<char>::empty());
    } else {
        assert((core + after).first() == core.first());
        lemma_stripped_start_of(before, core + after, c);
        lemma_stripped_end_of(core, after, c);
    }
}

/// A text in front is taken off as often as it stands there.
pub proof fn lemma_without_leading(prefix: Seq<char>, rest: Seq<char>)
    requires
        prefix.len() > 0,
    ensures
        without_leading(prefix + rest, prefix) == without_leading(rest, prefix),
        !prefix.is_prefix_of(rest) ==> without_leading(rest, prefix) == rest,
{
    let s = prefix + rest;
    assert(s.subrange(0, prefix.len() as int) =~= prefix);
    assert(s.skip(prefix.len() as int) =~= rest);
}

/// A text stands in another exactly where the other is something, the text, and something.
pub proof fn lemma_contains_parts(start: Seq<char>, part: Seq<char>, rest: Seq<char>)
    ensures
        contains_text(start + part + rest, part),
{
    let s = start + part + rest;
    assert(s.subrange(start.len() as int, (start.len() + part.len()) as int) =~= part);
    assert(occurs_at(s, part, start.len() as int));
}

/// A text that holds another is something, the other, and something.
pub proof fn lemma_parts_of_containing(s: Seq<char>, part: Seq<char>) -> (parts: (
    Seq<char>,
    Seq<char>,
))
    requires
        contains_text(s, part),
    ensures
        s == parts.0 + part + parts.1,
{
    let i = choose|i: int| occurs_at(s, part, i);
    let parts = (s.take(i), s.skip(i + part.len()));
    assert(s.subrange(i, i + part.len()) == part);
    assert(s =~= parts.0 + part + parts.1);
    parts
}

/// A text is cut at the first of the characters asked for, which belongs to neither part, and
/// is not cut where there is none.
pub proof fn lemma_cut_at_first(head: Seq<char>, c: char, tail: Seq<char>)
    requires
        !head.contains(c),
    ensures
        cut_at_first(head + seq![c] + tail, c) == Some((head, tail)),
        cut_at_first(head, c) is None,
        before_first(head + seq![c] + tail, c) == head,
        before_first(head, c) == head,
{
    let s = head + seq![c] + tail;
    lemma_first_of_character(head, c, tail);
    assert(s[head.len() as int] == c);
    assert(s.skip(first_position(s, c) + 1) =~= tail);
    lemma_first_position(head, c);
    assert(before_first(head, c) =~= head);
}

/// The first word is what stands between the white space at the start and the next white
/// space, or the end.
pub proof fn lemma_first_word(before: Seq<char>, word: Seq<char>, after: Seq<char>)
    requires
        blank(before),
        forall|i: int| 0 <= i < word.len() ==> !white_space(#[trigger] word[i]),
        word.len() == 0 ==> after.len() == 0,
        after.len() > 0 ==> white_space(after.first()),
    ensures
        first_word(before + word + after) == word,
{
    let rest = word + after;
    assert(before + word + after =~= before + rest);
    lemma_trimmed_start_of(before, rest);
    if word.len() > 0 {
        assert(rest.first() == word[0]);
        lemma_until_white_space(word, after);
    } else {
        assert(first_word(before + rest) =~= word);
    }
}

proof fn lemma_until_white_space(word: Seq<char>, after: Seq<char>)
    requires
        forall|i: int| 0 <= i < word.len() ==> !white_space(#[trigger] word[i]),
        after.len() > 0 ==> white_space(after.first()),
    ensures
        until_white_space(word + after) == word,
    decreases word.len(),
{
    let s = word + after;
    if word.len() > 0 {
        let rest = word.drop_first();
        assert(s.first() == word[0]);
        assert(s.drop_first() =~= rest + after);
        assert forall|i: int| 0 <= i < rest.len() implies !white_space(#[trigger] rest[i]) by {
            assert(!white_space(word[i + 1]));
        }
        lemma_until_white_space(rest, after);
        assert(word =~= seq![word.first()] + rest);
    } else {
        assert(s =~= after);
        assert(until_white_space(s) =~= word);
    }
}

/// A text is its first line and the lines behind it. A line ends with a line feed, or with a
/// carriage return and a line feed, neither of which belongs to it; without either, it ends
/// with the text.
pub proof fn lemma_lines_one_by_one(line: Seq<char>, rest: Seq<char>)
    requires
        !line.contains('\n'),
    ensures
        text_lines(Seq::empty()) == Seq::<Seq<char>>::empty(),
        line.len() > 0 ==> text_lines(line) == seq![line],
        line.len() == 0 || line.last() != '\r' ==> text_lines(line + seq!['\n'] + rest) == seq![
            line,
        ] + text_lines(rest),
        text_lines(line + seq!['\r', '\n'] + rest) == seq![line] + text_lines(rest),
{
    let returned = line.push('\r');
    assert(text_lines(Seq::empty()) =~= Seq::<Seq<char>>::empty());
    assert(!returned.contains('\n')) by {
        assert forall|i: int| 0 <= i < returned.len() implies returned[i] != '\n' by {
            if i < line.len() {
                assert(returned[i] == line[i]);
            }
        }
    }
    lemma_first_line(line, rest);
    lemma_first_line(returned, rest);
    assert(returned + seq!['\n'] + rest =~= line + seq!['\r', '\n'] + rest);
    assert(returned.drop_last() =~= line);
}

/// Replacing a character changes its copies to the other one, and nothing else.
pub proof fn lemma_replaced(s: Seq<char>, from: char, to: char)
    ensures
        replaced(s, from, to).len() == s.len(),
        forall|i: int|
            0 <= i < s.len() ==> (s[i] == from ==> #[trigger] replaced(s, from, to)[i] == to) && (
            s[i] != from ==> replaced(s, from, to)[i] == s[i]),
{
}

/// Trimming a text that holds something with no white space at its ends trims the start of
/// what stands before that and the end of what stands behind it.
pub proof fn lemma_trimmed_around_core(a: Seq<char>, core: Seq<char>, b: Seq<char>)
    requires
        core.len() > 0,
        solid(core),
    ensures
        trimmed(a + core + b) == trimmed_start(a) + core + trimmed_end(b),
{
    let before = lemma_start_parts(a);
    let after = lemma_end_parts(b);
    let x = trimmed_start(a);
    let y = trimmed_end(b);
    let middle = x + core + y;
    assert(solid(middle)) by {
        assert(middle.first() == if x.len() > 0 {
            x.first()
        } else {
            core.first()
        });
        assert(middle.last() == if y.len() > 0 {
            y.last()
        } else {
            core.last()
        });
    }
    lemma_trimmed_between(before, middle, after);
    assert(a + core + b =~= before + middle + after);
}

} // verus!
