//! Text as a sequence of characters: trimming, splitting and searching.

use vstd::prelude::*;
use vstd::slice::slice_subrange;

verus! {

/// Appending a character to a `String` adds it behind the text that is there.
pub assume_specification[ String::push ](s: &mut String, c: char)
    ensures
        final(s)@ == old(s)@.push(c),
;

/// The characters with the Unicode property `White_Space`.
pub open spec fn white_space(c: char) -> bool {
    ||| '\u{9}' <= c <= '\u{d}'
    ||| c == '\u{20}'
    ||| c == '\u{85}'
    ||| c == '\u{a0}'
    ||| c == '\u{1680}'
    ||| '\u{2000}' <= c <= '\u{200a}'
    ||| c == '\u{2028}'
    ||| c == '\u{2029}'
    ||| c == '\u{202f}'
    ||| c == '\u{205f}'
    ||| c == '\u{3000}'
}

/// `s` without the white space at its start.
pub open spec fn trimmed_start(s: Seq<char>) -> Seq<char>
    decreases s.len(),
{
    if s.len() > 0 && white_space(s.first()) {
        trimmed_start(s.drop_first())
    } else {
        s
    }
}

/// `s` without the white space at its end.
pub open spec fn trimmed_end(s: Seq<char>) -> Seq<char>
    decreases s.len(),
{
    if s.len() > 0 && white_space(s.last()) {
        trimmed_end(s.drop_last())
    } else {
        s
    }
}

/// `s` without the white space at either end.
pub open spec fn trimmed(s: Seq<char>) -> Seq<char> {
    trimmed_end(trimmed_start(s))
}

/// `s` without the characters `c` at its start.
pub open spec fn stripped_start(s: Seq<char>, c: char) -> Seq<char>
    decreases s.len(),
{
    if s.len() > 0 && s.first() == c {
        stripped_start(s.drop_first(), c)
    } else {
        s
    }
}

/// `s` without the characters `c` at its end.
pub open spec fn stripped_end(s: Seq<char>, c: char) -> Seq<char>
    decreases s.len(),
{
    if s.len() > 0 && s.last() == c {
        stripped_end(s.drop_last(), c)
    } else {
        s
    }
}

/// `s` without the characters `c` at either end.
pub open spec fn stripped(s: Seq<char>, c: char) -> Seq<char> {
    stripped_end(stripped_start(s, c), c)
}

/// `s` without the copies of `prefix` at its start.
pub open spec fn without_leading(s: Seq<char>, prefix: Seq<char>) -> Seq<char>
    decreases s.len(),
{
    if prefix.len() > 0 && prefix.is_prefix_of(s) {
        without_leading(s.skip(prefix.len() as int), prefix)
    } else {
        s
    }
}

/// `part` stands in `s` at position `i`.
pub open spec fn occurs_at(s: Seq<char>, part: Seq<char>, i: int) -> bool {
    &&& 0 <= i
    &&& i + part.len() <= s.len()
    &&& s.subrange(i, i + part.len()) == part
}

/// `part` stands somewhere in `s`.
pub open spec fn contains_text(s: Seq<char>, part: Seq<char>) -> bool {
    exists|i: int| occurs_at(s, part, i)
}

/// The last position at which `part` stands in `s`.
pub open spec fn last_occurrence(s: Seq<char>, part: Seq<char>) -> Option<int>
    decreases s.len(),
{
    if part.is_suffix_of(s) {
        Some(s.len() - part.len())
    } else if s.len() == 0 {
        None
    } else {
        last_occurrence(s.drop_last(), part)
    }
}

/// The characters at the start of `s` up to the first one that `pred` does not hold of.
pub open spec fn leading(s: Seq<char>, pred: spec_fn(char) -> bool) -> Seq<char>
    decreases s.len(),
{
    if s.len() > 0 && pred(s.first()) {
        seq![s.first()] + leading(s.drop_first(), pred)
    } else {
        Seq::empty()
    }
}

/// The first position of `c` in `s`, or the length of `s` where there is none.
pub open spec fn first_position(s: Seq<char>, c: char) -> int
    decreases s.len(),
{
    if s.len() == 0 || s.first() == c {
        0
    } else {
        1 + first_position(s.drop_first(), c)
    }
}

/// What stands in `s` before the first `c`: all of `s` where there is none.
pub open spec fn before_first(s: Seq<char>, c: char) -> Seq<char> {
    s.take(first_position(s, c))
}

/// `s` cut at the first `c`, which belongs to neither part.
pub open spec fn cut_at_first(s: Seq<char>, c: char) -> Option<(Seq<char>, Seq<char>)> {
    if s.contains(c) {
        Some((before_first(s, c), s.skip(first_position(s, c) + 1)))
    } else {
        None
    }
}

/// What stands in `s` before its first white space.
pub open spec fn until_white_space(s: Seq<char>) -> Seq<char>
    decreases s.len(),
{
    if s.len() == 0 || white_space(s.first()) {
        Seq::empty()
    } else {
        seq![s.first()] + until_white_space(s.drop_first())
    }
}

/// The first word of `s`, where white space parts the words; empty where there is none.
pub open spec fn first_word(s: Seq<char>) -> Seq<char> {
    until_white_space(trimmed_start(s))
}

/// A line without the carriage return that belonged to its line ending.
pub open spec fn without_carriage_return(line: Seq<char>) -> Seq<char> {
    if line.len() > 0 && line.last() == '\r' {
        line.drop_last()
    } else {
        line
    }
}

/// The lines of `s`. A line ends with a line feed, which may follow a carriage return;
/// neither belongs to the line. The last line may lack its ending.
pub open spec fn text_lines(s: Seq<char>) -> Seq<Seq<char>>
    decreases s.len(),
{
    if s.len() == 0 {
        Seq::empty()
    } else if s.contains('\n') {
        proof {
            lemma_first_position(s, '\n');
        }
        seq![without_carriage_return(before_first(s, '\n'))] + text_lines(
            s.skip(first_position(s, '\n') + 1),
        )
    } else {
        seq![s]
    }
}

/// `s` with each `from` replaced by `to`.
pub open spec fn replaced(s: Seq<char>, from: char, to: char) -> Seq<char> {
    s.map_values(|c: char| if c == from { to } else { c })
}

/// `s` without the white space at its start is the rest of `s` and starts with no white
/// space.
pub proof fn lemma_trimmed_start(s: Seq<char>)
    ensures
        trimmed_start(s).is_suffix_of(s),
        trimmed_start(s).len() > 0 ==> !white_space(trimmed_start(s).first()),
    decreases s.len(),
{
    if s.len() > 0 && white_space(s.first()) {
        let rest = s.drop_first();
        let t = trimmed_start(rest);
        lemma_trimmed_start(rest);
        assert(rest.subrange(rest.len() - t.len(), rest.len() as int) =~= s.subrange(
            s.len() - t.len(),
            s.len() as int,
        ));
    } else {
        assert(s.subrange(0, s.len() as int) =~= s);
    }
}

proof fn lemma_trimmed_end(s: Seq<char>)
    ensures
        trimmed_end(s).is_prefix_of(s),
        trimmed_end(s).len() > 0 ==> !white_space(trimmed_end(s).last()),
    decreases s.len(),
{
    if s.len() > 0 && white_space(s.last()) {
        let rest = s.drop_last();
        let t = trimmed_end(rest);
        lemma_trimmed_end(rest);
        assert(rest.subrange(0, t.len() as int) =~= s.subrange(0, t.len() as int));
    } else {
        assert(s.subrange(0, s.len() as int) =~= s);
    }
}

/// Trimming leaves no white space at either end, so trimming again changes nothing.
pub proof fn lemma_trimmed_once(s: Seq<char>)
    ensures
        trimmed(s).len() > 0 ==> !white_space(trimmed(s).first()) && !white_space(
            trimmed(s).last(),
        ),
        trimmed(trimmed(s)) == trimmed(s),
{
    let t = trimmed_start(s);
    let u = trimmed_end(t);
    lemma_trimmed_start(s);
    lemma_trimmed_end(t);
    if u.len() > 0 {
        assert(u.first() == t.first());
    }
}

/// No line holds a line feed.
pub proof fn lemma_lines_hold_no_line_feed(s: Seq<char>)
    ensures
        forall|i: int| 0 <= i < text_lines(s).len() ==> !(#[trigger] text_lines(s)[i]).contains('\n'),
    decreases s.len(),
{
    if s.len() > 0 && s.contains('\n') {
        lemma_first_position(s, '\n');
        let first = before_first(s, '\n');
        let rest = s.skip(first_position(s, '\n') + 1);
        lemma_lines_hold_no_line_feed(rest);
        assert forall|i: int| 0 <= i < text_lines(s).len() implies !(
        #[trigger] text_lines(s)[i]).contains('\n') by {
            if i > 0 {
                assert(text_lines(s)[i] == text_lines(rest)[i - 1]);
            } else {
                assert(text_lines(s)[0] == without_carriage_return(first));
            }
        }
    }
}

/// `leading` is the start of the text, holds nothing that `pred` does not hold of, and goes
/// as far as it can.
pub proof fn lemma_leading(s: Seq<char>, pred: spec_fn(char) -> bool)
    ensures
        leading(s, pred).is_prefix_of(s),
        forall|i: int| 0 <= i < leading(s, pred).len() ==> pred(#[trigger] leading(s, pred)[i]),
        leading(s, pred).len() < s.len() ==> !pred(s[leading(s, pred).len() as int]),
    decreases s.len(),
{
    let run = leading(s, pred);
    if s.len() > 0 && pred(s.first()) {
        let rest = s.drop_first();
        let more = leading(rest, pred);
        lemma_leading(rest, pred);
        assert forall|i: int| 0 <= i < run.len() implies pred(#[trigger] run[i]) && run[i]
            == s[i] by {
            if i > 0 {
                assert(run[i] == more[i - 1]);
                assert(more[i - 1] == rest.subrange(0, more.len() as int)[i - 1]);
            }
        }
        assert(run =~= s.subrange(0, run.len() as int));
    } else {
        assert(run =~= s.subrange(0, 0));
    }
}

/// What stands behind a character that `pred` does not hold of does not matter.
pub proof fn lemma_leading_stops(
    s: Seq<char>,
    c: char,
    rest: Seq<char>,
    pred: spec_fn(char) -> bool,
)
    requires
        !pred(c),
    ensures
        leading(s + seq![c] + rest, pred) == leading(s, pred),
    decreases s.len(),
{
    let whole = s + seq![c] + rest;
    if s.len() > 0 {
        assert(whole.drop_first() =~= s.drop_first() + seq![c] + rest);
        assert(whole.first() == s.first());
        lemma_leading_stops(s.drop_first(), c, rest, pred);
    } else {
        assert(whole.first() == c);
    }
}

/// What stands in a part of a text stands in the text.
pub proof fn lemma_part_contains(s: Seq<char>, from: int, to: int, part: Seq<char>)
    requires
        0 <= from <= to <= s.len(),
        contains_text(s.subrange(from, to), part),
    ensures
        contains_text(s, part),
{
    let i = choose|i: int| occurs_at(s.subrange(from, to), part, i);
    assert(s.subrange(from, to).subrange(i, i + part.len()) =~= s.subrange(
        from + i,
        from + i + part.len(),
    ));
    assert(occurs_at(s, part, from + i));
}

/// What stands in a trimmed text stands in the text.
pub proof fn lemma_trimmed_contains(s: Seq<char>, part: Seq<char>)
    requires
        contains_text(trimmed(s), part),
    ensures
        contains_text(s, part),
{
    let t = trimmed_start(s);
    lemma_trimmed_start(s);
    lemma_trimmed_end(t);
    assert(trimmed(s) =~= t.subrange(0, trimmed(s).len() as int));
    lemma_part_contains(t, 0, trimmed(s).len() as int, part);
    assert(t =~= s.subrange(s.len() - t.len(), s.len() as int));
    lemma_part_contains(s, s.len() - t.len(), s.len() as int, part);
}

/// What stands in a line of a text stands in the text.
pub proof fn lemma_line_contains(s: Seq<char>, i: int, part: Seq<char>)
    requires
        0 <= i < text_lines(s).len(),
        contains_text(text_lines(s)[i], part),
    ensures
        contains_text(s, part),
    decreases s.len(),
{
    if s.contains('\n') {
        lemma_first_position(s, '\n');
        let end = first_position(s, '\n');
        let line = without_carriage_return(before_first(s, '\n'));
        let rest = s.skip(end + 1);
        if i == 0 {
            assert(line =~= s.subrange(0, line.len() as int));
            lemma_part_contains(s, 0, line.len() as int, part);
        } else {
            assert(text_lines(s)[i] == text_lines(rest)[i - 1]);
            lemma_line_contains(rest, i - 1, part);
            assert(rest =~= s.subrange(end + 1, s.len() as int));
            lemma_part_contains(s, end + 1, s.len() as int, part);
        }
    }
}

/// A text whose first line is known: that line, and the lines of what follows it.
pub proof fn lemma_first_line(line: Seq<char>, rest: Seq<char>)
    requires
        !line.contains('\n'),
    ensures
        text_lines(line + seq!['\n'] + rest) == seq![without_carriage_return(line)] + text_lines(
            rest,
        ),
{
    let s = line + seq!['\n'] + rest;
    lemma_first_of_character(line, '\n', rest);
    assert(s[line.len() as int] == '\n');
    assert(s.skip(line.len() + 1int) =~= rest);
}

/// The lines of two texts with a line feed between them: those of the first with a line feed
/// at its end, and those of the second.
pub proof fn lemma_lines_joined(a: Seq<char>, b: Seq<char>)
    ensures
        text_lines(a + seq!['\n'] + b) == text_lines(a + seq!['\n']) + text_lines(b),
    decreases a.len(),
{
    let none = Seq::<char>::empty();
    if a.contains('\n') {
        lemma_first_position(a, '\n');
        let end = first_position(a, '\n');
        let line = a.take(end);
        let rest = a.skip(end + 1);
        assert(!line.contains('\n')) by {
            assert forall|i: int| 0 <= i < line.len() implies line[i] != '\n' by {
                assert(line[i] == a[i]);
            }
        }
        assert(a =~= line + seq!['\n'] + rest);
        assert(a + seq!['\n'] + b =~= line + seq!['\n'] + (rest + seq!['\n'] + b));
        assert(a + seq!['\n'] =~= line + seq!['\n'] + (rest + seq!['\n']));
        lemma_first_line(line, rest + seq!['\n'] + b);
        lemma_first_line(line, rest + seq!['\n']);
        lemma_lines_joined(rest, b);
    } else {
        lemma_first_line(a, b);
        lemma_first_line(a, none);
        assert(a + seq!['\n'] + none =~= a + seq!['\n']);
        assert(text_lines(none) =~= Seq::<Seq<char>>::empty());
    }
}

/// A line feed at the end of a text ends its last line, which then lacks its carriage return,
/// or adds an empty line.
pub proof fn lemma_lines_ended(a: Seq<char>)
    ensures
        text_lines(a + seq!['\n']) == if a.len() == 0 || a.last() == '\n' {
            text_lines(a).push(Seq::empty())
        } else {
            text_lines(a).drop_last().push(without_carriage_return(text_lines(a).last()))
        },
        a.len() > 0 ==> text_lines(a).len() > 0,
    decreases a.len(),
{
    let none = Seq::<char>::empty();
    let ended = a + seq!['\n'];
    assert(text_lines(none) =~= Seq::<Seq<char>>::empty());
    if a.contains('\n') {
        lemma_first_position(a, '\n');
        let end = first_position(a, '\n');
        let line = a.take(end);
        let rest = a.skip(end + 1);
        assert(!line.contains('\n')) by {
            assert forall|i: int| 0 <= i < line.len() implies line[i] != '\n' by {
                assert(line[i] == a[i]);
            }
        }
        assert(ended =~= line + seq!['\n'] + (rest + seq!['\n']));
        lemma_first_line(line, rest + seq!['\n']);
        lemma_lines_ended(rest);
        let first = seq![without_carriage_return(line)];
        assert(text_lines(a) == first + text_lines(rest));
        if rest.len() == 0 {
            assert(rest =~= none);
            assert(a.last() == '\n');
            assert(text_lines(ended) =~= text_lines(a).push(none));
        } else {
            assert(a.last() == rest.last());
            if rest.last() == '\n' {
                assert(text_lines(ended) =~= text_lines(a).push(none));
            } else {
                assert(text_lines(a).last() == text_lines(rest).last());
                assert(text_lines(ended) =~= text_lines(a).drop_last().push(
                    without_carriage_return(text_lines(a).last()),
                ));
            }
        }
    } else {
        lemma_first_line(a, none);
        assert(ended + none =~= ended);
        if a.len() == 0 {
            assert(a =~= none);
            assert(text_lines(ended) =~= text_lines(a).push(none));
        } else {
            assert(a.last() != '\n') by {
                assert(a[a.len() - 1] == a.last());
            }
            assert(text_lines(a) =~= seq![a]);
            assert(text_lines(ended) =~= text_lines(a).drop_last().push(
                without_carriage_return(text_lines(a).last()),
            ));
        }
    }
}

/// Trimming around a character that is no white space trims the start of what stands before
/// it and the end of what stands behind it.
pub proof fn lemma_trimmed_around(a: Seq<char>, c: char, b: Seq<char>)
    requires
        !white_space(c),
    ensures
        trimmed(a + seq![c] + b) == trimmed_start(a) + seq![c] + trimmed_end(b),
{
    lemma_trimmed_start_around(a, c, b);
    lemma_trimmed_end_around(trimmed_start(a), c, b);
}

proof fn lemma_trimmed_start_around(a: Seq<char>, c: char, b: Seq<char>)
    requires
        !white_space(c),
    ensures
        trimmed_start(a + seq![c] + b) == trimmed_start(a) + seq![c] + b,
    decreases a.len(),
{
    let whole = a + seq![c] + b;
    if a.len() > 0 {
        assert(whole.first() == a.first());
        assert(whole.drop_first() =~= a.drop_first() + seq![c] + b);
        lemma_trimmed_start_around(a.drop_first(), c, b);
    } else {
        assert(whole.first() == c);
    }
}

proof fn lemma_trimmed_end_around(a: Seq<char>, c: char, b: Seq<char>)
    requires
        !white_space(c),
    ensures
        trimmed_end(a + seq![c] + b) == a + seq![c] + trimmed_end(b),
    decreases b.len(),
{
    let whole = a + seq![c] + b;
    if b.len() > 0 {
        assert(whole.last() == b.last());
        assert(whole.drop_last() =~= a + seq![c] + b.drop_last());
        lemma_trimmed_end_around(a, c, b.drop_last());
    } else {
        assert(whole.last() == c);
    }
}

/// A text that is trimmed at one end is trimmed to the same as the text itself.
pub proof fn lemma_trimmed_in_parts(s: Seq<char>)
    ensures
        trimmed(trimmed_start(s)) == trimmed(s),
        trimmed(trimmed_end(s)) == trimmed(s),
    decreases s.len(),
{
    lemma_trimmed_start(s);
    if s.len() > 0 && white_space(s.last()) {
        lemma_trimmed_in_parts(s.drop_last());
        lemma_trimmed_drops_last(s);
    }
}

/// A carriage return at the end of a text is white space: it does not matter to what is
/// trimmed.
pub proof fn lemma_trimmed_without_carriage_return(line: Seq<char>)
    ensures
        trimmed(without_carriage_return(line)) == trimmed(line),
{
    if line.len() > 0 && line.last() == '\r' {
        lemma_trimmed_drops_last(line);
    }
}

proof fn lemma_trimmed_drops_last(s: Seq<char>)
    requires
        s.len() > 0,
        white_space(s.last()),
    ensures
        trimmed(s.drop_last()) == trimmed(s),
    decreases s.len(),
{
    let front = s.drop_last();
    if s.len() > 1 && white_space(s.first()) {
        lemma_trimmed_drops_last(s.drop_first());
        assert(front.drop_first() =~= s.drop_first().drop_last());
    } else if s.len() == 1 {
        assert(front =~= Seq::<char>::empty());
        assert(s.drop_first() =~= Seq::<char>::empty());
    }
}

/// The first `c` in a text whose start has none and is followed by `c`.
pub proof fn lemma_first_of_character(start: Seq<char>, c: char, rest: Seq<char>)
    requires
        !start.contains(c),
    ensures
        first_position(start + seq![c] + rest, c) == start.len(),
        before_first(start + seq![c] + rest, c) == start,
{
    let s = start + seq![c] + rest;
    let i = first_position(s, c);
    lemma_first_position(s, c);
    assert(s[start.len() as int] == c);
    if i < start.len() {
        assert(start[i] == c);
    }
    assert(s.take(start.len() as int) =~= start);
}

/// `first_position` is a position of the character, with none before it, or the length.
pub proof fn lemma_first_position(s: Seq<char>, c: char)
    ensures
        0 <= first_position(s, c) <= s.len(),
        forall|i: int| 0 <= i < first_position(s, c) ==> s[i] != c,
        s.contains(c) <==> first_position(s, c) < s.len(),
        s.contains(c) ==> s[first_position(s, c)] == c,
    decreases s.len(),
{
    if s.len() > 0 && s.first() != c {
        let rest = s.drop_first();
        lemma_first_position(rest, c);
        assert forall|i: int| 0 <= i < first_position(s, c) implies s[i] != c by {
            if i > 0 {
                assert(s[i] == rest[i - 1]);
            }
        }
        if s.contains(c) {
            let i = choose|i: int| 0 <= i < s.len() && s[i] == c;
            assert(rest[i - 1] == c);
        }
        if rest.contains(c) {
            let i = choose|i: int| 0 <= i < rest.len() && rest[i] == c;
            assert(s[i + 1] == c);
        }
    } else if s.len() > 0 {
        assert(s[0] == c);
    }
}

/// `last_occurrence` is the greatest position at which the text occurs, if there is one.
pub proof fn lemma_last_occurrence(s: Seq<char>, part: Seq<char>)
    ensures
        match last_occurrence(s, part) {
            Some(i) => {
                &&& occurs_at(s, part, i)
                &&& forall|j: int| occurs_at(s, part, j) ==> j <= i
            },
            None => !contains_text(s, part),
        },
    decreases s.len(),
{
    let n = s.len() as int;
    let k = part.len() as int;
    if part.is_suffix_of(s) {
        assert(occurs_at(s, part, n - k));
    } else if n > 0 {
        let front = s.drop_last();
        lemma_last_occurrence(front, part);
        assert forall|j: int| occurs_at(s, part, j) implies occurs_at(front, part, j) by {
            assert(j + k < n);
            assert(front.subrange(j, j + k) == s.subrange(j, j + k));
        }
        if let Some(i) = last_occurrence(front, part) {
            assert(front.subrange(i, i + k) == s.subrange(i, i + k));
        }
    }
}

/// Whether `c` is white space.
pub fn is_white_space(c: char) -> (r: bool)
    ensures
        r == white_space(c),
{
    ('\u{9}' <= c && c <= '\u{d}') || c == '\u{20}' || c == '\u{85}' || c == '\u{a0}' || c
        == '\u{1680}' || ('\u{2000}' <= c && c <= '\u{200a}') || c == '\u{2028}' || c == '\u{2029}'
        || c == '\u{202f}' || c == '\u{205f}' || c == '\u{3000}'
}

/// The characters of a text.
pub fn to_chars(s: &str) -> (chars: Vec<char>)
    ensures
        chars@ == s@,
{
    let mut chars: Vec<char> = Vec::new();
    for c in iter: s.chars()
        invariant
            chars@ == iter.seq().take(iter.index()),
            iter.seq() == s@,
    {
        chars.push(c);
    }
    chars
}

/// The text that some characters make.
pub fn to_text(chars: &[char]) -> (s: String)
    ensures
        s@ == chars@,
{
    let mut s = String::new();
    for i in 0..chars.len()
        invariant
            s@ == chars@.take(i as int),
    {
        s.push(chars[i]);
        assert(chars@.take(i + 1) == chars@.take(i as int).push(chars@[i as int]));
    }
    assert(chars@.take(chars@.len() as int) == chars@);
    s
}

/// `s` without the white space at its start.
pub fn trim_start(s: &[char]) -> (r: &[char])
    ensures
        r@ == trimmed_start(s@),
{
    let n: usize = s.len();
    let mut i: usize = 0;
    assert(s@.skip(0) == s@);
    while i < n && is_white_space(s[i])
        invariant
            i <= n == s@.len(),
            trimmed_start(s@) == trimmed_start(s@.skip(i as int)),
        decreases n - i,
    {
        assert(s@.skip(i as int).drop_first() == s@.skip(i + 1));
        i += 1;
    }
    assert(s@.subrange(i as int, n as int) == s@.skip(i as int));
    slice_subrange(s, i, n)
}

/// `s` without the white space at its end.
pub fn trim_end(s: &[char]) -> (r: &[char])
    ensures
        r@ == trimmed_end(s@),
{
    let mut n: usize = s.len();
    assert(s@.take(n as int) == s@);
    while n > 0 && is_white_space(s[n - 1])
        invariant
            n <= s@.len(),
            trimmed_end(s@) == trimmed_end(s@.take(n as int)),
        decreases n,
    {
        assert(s@.take(n as int).drop_last() == s@.take(n - 1));
        n -= 1;
    }
    assert(s@.subrange(0, n as int) == s@.take(n as int));
    slice_subrange(s, 0, n)
}

/// `s` without the white space at either end.
pub fn trim(s: &[char]) -> (r: &[char])
    ensures
        r@ == trimmed(s@),
{
    trim_end(trim_start(s))
}

/// `s` without the characters `c` at either end.
pub fn strip_char(s: &[char], c: char) -> (r: &[char])
    ensures
        r@ == stripped(s@, c),
{
    let mut n: usize = s.len();
    let mut i: usize = 0;
    assert(s@.skip(0) == s@);
    while i < n && s[i] == c
        invariant
            i <= n == s@.len(),
            stripped_start(s@, c) == stripped_start(s@.skip(i as int), c),
        decreases n - i,
    {
        assert(s@.skip(i as int).drop_first() == s@.skip(i + 1));
        i += 1;
    }
    let ghost kept = s@.skip(i as int);
    assert(s@.subrange(i as int, n as int) == kept);
    while n > i && s[n - 1] == c
        invariant
            i <= n <= s@.len(),
            kept == s@.skip(i as int),
            stripped_end(kept, c) == stripped_end(s@.subrange(i as int, n as int), c),
        decreases n,
    {
        assert(s@.subrange(i as int, n as int).drop_last() == s@.subrange(i as int, n - 1));
        n -= 1;
    }
    slice_subrange(s, i, n)
}

/// Whether two texts are the same.
pub fn same_text(s: &[char], other: &str) -> (r: bool)
    ensures
        r == (s@ == other@),
{
    same_chars(s, to_chars(other).as_slice())
}

/// Whether two sequences of characters are the same.
pub fn same_chars(a: &[char], b: &[char]) -> (r: bool)
    ensures
        r == (a@ == b@),
{
    if a.len() != b.len() {
        return false;
    }
    for i in 0..a.len()
        invariant
            a@.len() == b@.len(),
            forall|j: int| 0 <= j < i ==> a@[j] == b@[j],
    {
        if a[i] != b[i] {
            return false;
        }
    }
    assert(a@ =~= b@);
    true
}

/// Whether `part` stands in `s` at position `i`.
fn stands_at(s: &[char], part: &[char], i: usize) -> (r: bool)
    ensures
        r == occurs_at(s@, part@, i as int),
{
    let n: usize = s.len();
    let k: usize = part.len();
    if k > n || i > n - k {
        return false;
    }
    let ghost range = s@.subrange(i as int, i + k);
    for j in 0..k
        invariant
            k == part@.len(),
            i + k <= n == s@.len(),
            range == s@.subrange(i as int, i + k),
            forall|m: int| 0 <= m < j ==> range[m] == part@[m],
    {
        if s[i + j] != part[j] {
            assert(range[j as int] != part@[j as int]);
            return false;
        }
    }
    assert(range =~= part@);
    true
}

/// Whether `s` starts with `prefix`.
pub fn starts_with(s: &[char], prefix: &str) -> (r: bool)
    ensures
        r == prefix@.is_prefix_of(s@),
{
    stands_at(s, to_chars(prefix).as_slice(), 0)
}

/// Whether `s` ends with `suffix`.
pub fn ends_with(s: &[char], suffix: &str) -> (r: bool)
    ensures
        r == suffix@.is_suffix_of(s@),
{
    let part = to_chars(suffix);
    part.len() <= s.len() && stands_at(s, part.as_slice(), s.len() - part.len())
}

/// Whether `part` stands somewhere in `s`.
pub fn contains(s: &[char], part: &str) -> (r: bool)
    ensures
        r == contains_text(s@, part@),
{
    let part_chars = to_chars(part);
    let n: usize = s.len();
    let k: usize = part_chars.len();
    if k > n {
        return false;
    }
    let mut i: usize = 0;
    while i <= n - k
        invariant
            k <= n == s@.len(),
            k == part@.len(),
            part_chars@ == part@,
            i <= n - k + 1,
            forall|j: int| 0 <= j < i ==> !occurs_at(s@, part@, j),
        decreases n - k + 1 - i,
    {
        if stands_at(s, part_chars.as_slice(), i) {
            return true;
        }
        if i == n - k {
            return false;
        }
        i += 1;
    }
    false
}

/// The last position at which `part` stands in `s`.
pub fn find_last(s: &[char], part: &str) -> (r: Option<usize>)
    ensures
        r is Some <==> last_occurrence(s@, part@) is Some,
        r matches Some(i) ==> last_occurrence(s@, part@) == Some(i as int),
        r matches Some(i) ==> i + part@.len() <= s@.len(),
{
    let part_chars = to_chars(part);
    let k: usize = part_chars.len();
    let mut n: usize = s.len();
    assert(s@.take(n as int) == s@);
    loop
        invariant
            n <= s@.len(),
            k == part@.len(),
            part_chars@ == part@,
            last_occurrence(s@, part@) == last_occurrence(s@.take(n as int), part@),
        decreases n,
    {
        let ghost cut = s@.take(n as int);
        if k <= n && stands_at(s, part_chars.as_slice(), n - k) {
            assert(cut.subrange(n - k, n as int) == s@.subrange(n - k, n as int));
            return Some(n - k);
        }
        assert(!part@.is_suffix_of(cut)) by {
            if k <= n {
                assert(cut.subrange(n - k, n as int) == s@.subrange(n - k, n as int));
            }
        }
        if n == 0 {
            return None;
        }
        assert(cut.drop_last() == s@.take(n - 1));
        n -= 1;
    }
}

/// The first position of `c` in `s`, or the length of `s` where there is none.
pub fn find_first(s: &[char], c: char) -> (r: usize)
    ensures
        r == first_position(s@, c),
        r <= s@.len(),
        s@.contains(c) <==> r < s@.len(),
{
    let n: usize = s.len();
    let mut i: usize = 0;
    assert(s@.skip(0) == s@);
    while i < n && s[i] != c
        invariant
            i <= n == s@.len(),
            first_position(s@, c) == i + first_position(s@.skip(i as int), c),
        decreases n - i,
    {
        assert(s@.skip(i as int).drop_first() == s@.skip(i + 1));
        i += 1;
    }
    proof {
        lemma_first_position(s@, c);
    }
    i
}

/// What stands in `s` before the first `c`.
pub fn take_before(s: &[char], c: char) -> (r: &[char])
    ensures
        r@ == before_first(s@, c),
{
    slice_subrange(s, 0, find_first(s, c))
}

/// `s` cut at the first `c`.
pub fn cut_once(s: &[char], c: char) -> (r: Option<(&[char], &[char])>)
    ensures
        r is Some <==> cut_at_first(s@, c) is Some,
        r matches Some((head, tail)) ==> cut_at_first(s@, c) == Some((head@, tail@)),
{
    let i = find_first(s, c);
    if i < s.len() {
        assert(s@.subrange(i + 1, s@.len() as int) == s@.skip(i + 1));
        Some((slice_subrange(s, 0, i), slice_subrange(s, i + 1, s.len())))
    } else {
        None
    }
}

/// `s` without the copies of `prefix` at its start.
pub fn strip_leading<'a>(s: &'a [char], prefix: &str) -> (r: &'a [char])
    ensures
        r@ == without_leading(s@, prefix@),
{
    let part = to_chars(prefix);
    let k: usize = part.len();
    let n: usize = s.len();
    let mut i: usize = 0;
    assert(s@.skip(0) == s@);
    while k > 0 && stands_at(s, part.as_slice(), i)
        invariant
            k == part@.len(),
            part@ == prefix@,
            i <= n == s@.len(),
            without_leading(s@, prefix@) == without_leading(s@.skip(i as int), prefix@),
        decreases n - i,
    {
        assert(s@.skip(i as int).subrange(0, k as int) == s@.subrange(i as int, i + k));
        assert(s@.skip(i as int).skip(k as int) == s@.skip(i + k));
        i += k;
    }
    assert(s@.subrange(i as int, n as int) == s@.skip(i as int));
    assert(prefix@.is_prefix_of(s@.skip(i as int)) ==> occurs_at(s@, prefix@, i as int)) by {
        if prefix@.is_prefix_of(s@.skip(i as int)) {
            assert(s@.skip(i as int).subrange(0, k as int) == s@.subrange(i as int, i + k));
        }
    }
    slice_subrange(s, i, n)
}

/// The first word of `s`; empty where there is none.
pub fn take_word(s: &[char]) -> (r: &[char])
    ensures
        r@ == first_word(s@),
{
    let t = trim_start(s);
    let n: usize = t.len();
    let mut i: usize = 0;
    assert(t@.skip(0) == t@);
    assert(t@.take(0) + until_white_space(t@) == until_white_space(t@));
    while i < n && !is_white_space(t[i])
        invariant
            i <= n == t@.len(),
            until_white_space(t@) == t@.take(i as int) + until_white_space(t@.skip(i as int)),
        decreases n - i,
    {
        let ghost rest = t@.skip(i as int);
        assert(rest.drop_first() == t@.skip(i + 1));
        assert(t@.take(i as int) + (seq![rest.first()] + until_white_space(rest.drop_first()))
            == t@.take(i + 1) + until_white_space(rest.drop_first()));
        i += 1;
    }
    assert(t@.take(i as int) + Seq::<char>::empty() == t@.take(i as int));
    assert(t@.subrange(0, i as int) == t@.take(i as int));
    slice_subrange(t, 0, i)
}

/// `s` with each `from` replaced by `to`.
pub fn replace_char(s: &[char], from: char, to: char) -> (r: Vec<char>)
    ensures
        r@ == replaced(s@, from, to),
{
    let mut r: Vec<char> = Vec::new();
    for i in 0..s.len()
        invariant
            r@.len() == i,
            forall|j: int| 0 <= j < i ==> r@[j] == replaced(s@, from, to)[j],
    {
        if s[i] == from {
            r.push(to);
        } else {
            r.push(s[i]);
        }
    }
    assert(r@ =~= replaced(s@, from, to));
    r
}

/// The characters of each of some texts.
pub open spec fn texts(items: Seq<String>) -> Seq<Seq<char>> {
    items.map_values(|item: String| item@)
}

/// The lines of a text.
pub fn split_lines(s: &str) -> (lines: Vec<String>)
    ensures
        texts(lines@) == text_lines(s@),
{
    let chars = to_chars(s);
    let n: usize = chars.len();
    let mut lines: Vec<String> = Vec::new();
    let mut start: usize = 0;
    assert(s@.skip(0) == s@);
    assert(texts(lines@) + text_lines(s@) == text_lines(s@));
    while start < n
        invariant
            start <= n == s@.len(),
            chars@ == s@,
            texts(lines@) + text_lines(s@.skip(start as int)) == text_lines(s@),
        decreases n - start,
    {
        let ghost rest = s@.skip(start as int);
        let ghost before = lines@;
        let tail = slice_subrange(chars.as_slice(), start, n);
        assert(tail@ == rest);
        let i = find_first(tail, '\n');
        if i < tail.len() {
            let end: usize = if i > 0 && tail[i - 1] == '\r' {
                i - 1
            } else {
                i
            };
            let line = slice_subrange(tail, 0, end);
            assert(line@ == without_carriage_return(before_first(rest, '\n')));
            lines.push(to_text(line));
            assert(texts(lines@) == texts(before).push(line@));
            assert(rest.skip(i + 1) == s@.skip(start + i + 1));
            assert(texts(before) + (seq![line@] + text_lines(rest.skip(i + 1))) == texts(lines@)
                + text_lines(rest.skip(i + 1)));
            start = start + i + 1;
        } else {
            lines.push(to_text(tail));
            assert(texts(lines@) == texts(before).push(rest));
            assert(texts(before) + seq![rest] == texts(lines@));
            assert(s@.skip(n as int).len() == 0);
            assert(texts(lines@) + text_lines(s@.skip(n as int)) == texts(lines@));
            start = n;
        }
    }
    assert(s@.skip(n as int).len() == 0);
    assert(texts(lines@) + text_lines(s@.skip(n as int)) == texts(lines@));
    lines
}

} // verus!
