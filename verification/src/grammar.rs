//! What directives and addresses look like: what the patterns for them match.

use vstd::prelude::*;

use crate::text::{
    contains_text, first_position, leading, lemma_first_position, lemma_leading,
    lemma_leading_stops, lemma_part_contains, lemma_trimmed_start, occurs_at, trimmed_start,
    white_space,
};

verus! {

/// The word that opens every directive.
pub const KEYWORD: &'static str = "hermit:";

/// The text before the path of a raw file on GitHub.
pub const RAW_GITHUB_HOST: &'static str = "https://raw.githubusercontent.com/";

/// A directive at the start of a text, and the rule between its brackets, if it has any: the
/// keyword and `ignore`, with white space between them or none. Behind that, and behind white
/// space, brackets may stand; the rule ends at the first closing one.
pub open spec fn directive_at_start(text: Seq<char>) -> Option<(Seq<char>, Option<Seq<char>>)> {
    let word = trimmed_start(text.skip(KEYWORD@.len() as int));
    let tail = word.skip("ignore"@.len() as int);
    let group = trimmed_start(tail);
    let end = first_position(group, ']');
    if !KEYWORD@.is_prefix_of(text) || !"ignore"@.is_prefix_of(word) {
        None
    } else if "["@.is_prefix_of(group) && group.contains(']') {
        Some((text.take(text.len() - group.len() + end + 1), Some(group.subrange(1, end))))
    } else {
        Some((text.take(text.len() - tail.len()), None))
    }
}

/// A directive in a text: what stands before it, the directive, and the rule between its
/// brackets.
pub struct FoundDirective {
    pub before: Seq<char>,
    pub matched: Seq<char>,
    pub rule: Option<Seq<char>>,
}

/// The first directive in a text.
pub open spec fn first_directive(text: Seq<char>) -> Option<FoundDirective>
    decreases text.len(),
{
    match directive_at_start(text) {
        Some((matched, rule)) => Some(FoundDirective { before: Seq::empty(), matched, rule }),
        None => if text.len() == 0 {
            None
        } else {
            match first_directive(text.drop_first()) {
                Some(found) => Some(
                    FoundDirective { before: seq![text.first()] + found.before, ..found },
                ),
                None => None,
            }
        },
    }
}

/// A character that may stand in an address: no white space, quotation mark, apostrophe or
/// `|`.
pub open spec fn address_char(c: char) -> bool {
    !white_space(c) && c != '|' && c != '\'' && c != '"'
}

/// An address at the start of a text: `http://` or `https://`, and the characters behind it
/// that may stand in an address, of which there is one at least.
pub open spec fn address_at_start(text: Seq<char>) -> Option<Seq<char>> {
    let scheme = if "https://"@.is_prefix_of(text) {
        "https://"@
    } else {
        "http://"@
    };
    let run = leading(text.skip(scheme.len() as int), |c: char| address_char(c));
    if scheme.is_prefix_of(text) && run.len() > 0 {
        Some(scheme + run)
    } else {
        None
    }
}

/// The addresses in a text, in their order. They do not overlap.
pub open spec fn addresses(text: Seq<char>) -> Seq<Seq<char>>
    decreases text.len(),
{
    if text.len() == 0 {
        Seq::empty()
    } else {
        proof {
            lemma_address_at_start(text);
        }
        match address_at_start(text) {
            Some(address) => seq![address] + addresses(text.skip(address.len() as int)),
            None => addresses(text.drop_first()),
        }
    }
}

/// A character that may stand in the name of an owner or a repository: no slash, white space,
/// quotation mark or apostrophe.
pub open spec fn segment_char(c: char) -> bool {
    c != '/' && !white_space(c) && c != '\'' && c != '"'
}

/// A hexadecimal digit.
pub open spec fn hex_digit(c: char) -> bool {
    '0' <= c <= '9' || 'a' <= c <= 'f' || 'A' <= c <= 'F'
}

/// The text starts with the address of a raw file on GitHub at a full commit hash: the host,
/// an owner, a repository, forty hexadecimal digits and a path, with slashes between them.
pub open spec fn raw_file_at_start(text: Seq<char>) -> bool {
    let after_host = text.skip(RAW_GITHUB_HOST@.len() as int);
    let owner = leading(after_host, |c: char| segment_char(c));
    let after_owner = after_host.skip(owner.len() as int);
    let repository = leading(after_owner.skip(1), |c: char| segment_char(c));
    let after_repository = after_owner.skip(1).skip(repository.len() as int);
    let rest = after_repository.skip(1);
    &&& RAW_GITHUB_HOST@.is_prefix_of(text)
    &&& owner.len() > 0 && "/"@.is_prefix_of(after_owner)
    &&& repository.len() > 0 && "/"@.is_prefix_of(after_repository)
    &&& rest.len() > 41
    &&& forall|i: int| 0 <= i < 40 ==> hex_digit(#[trigger] rest[i])
    &&& rest[40] == '/' && address_char(rest[41])
}

/// The text holds the address of a raw file on GitHub at a full commit hash.
pub open spec fn names_raw_file(text: Seq<char>) -> bool {
    exists|i: int| 0 <= i <= text.len() && raw_file_at_start(#[trigger] text.skip(i))
}

/// An address at the start of a text is the start of the text, and not empty.
pub proof fn lemma_address_at_start(text: Seq<char>)
    ensures
        address_at_start(text) matches Some(address) ==> {
            &&& 0 < address.len()
            &&& address.is_prefix_of(text)
        },
{
    if let Some(address) = address_at_start(text) {
        let scheme = if "https://"@.is_prefix_of(text) {
            "https://"@
        } else {
            "http://"@
        };
        let rest = text.skip(scheme.len() as int);
        let run = leading(rest, |c: char| address_char(c));
        lemma_leading(rest, |c: char| address_char(c));
        assert(rest.subrange(0, run.len() as int) =~= text.subrange(
            scheme.len() as int,
            address.len() as int,
        ));
        assert(text.subrange(0, scheme.len() as int) == scheme);
        assert(address =~= text.subrange(0, address.len() as int));
    }
}

/// A directive at the start of a text is the start of the text.
proof fn lemma_directive_at_start(text: Seq<char>)
    ensures
        directive_at_start(text) matches Some((matched, _)) ==> {
            &&& KEYWORD@.len() <= matched.len()
            &&& matched.is_prefix_of(text)
        },
{
    if directive_at_start(text) is Some {
        let after = text.skip(KEYWORD@.len() as int);
        let word = trimmed_start(after);
        let tail = word.skip("ignore"@.len() as int);
        let group = trimmed_start(tail);
        lemma_trimmed_start(after);
        lemma_trimmed_start(tail);
        lemma_first_position(group, ']');
    }
}

/// A directive in a text stands directly behind what is before it.
pub proof fn lemma_first_directive_is_part(text: Seq<char>)
    ensures
        first_directive(text) matches Some(found) ==> (found.before + found.matched).is_prefix_of(
            text,
        ) && directive_at_start(text.skip(found.before.len() as int)) == Some(
            (found.matched, found.rule),
        ),
    decreases text.len(),
{
    lemma_directive_at_start(text);
    if directive_at_start(text) is Some {
        let found = first_directive(text)->0;
        assert(found.before + found.matched =~= found.matched);
        assert(text.skip(0) =~= text);
    } else if text.len() > 0 {
        let rest = text.drop_first();
        lemma_first_directive_is_part(rest);
        if let Some(found) = first_directive(rest) {
            let n = (found.before.len() + found.matched.len()) as int;
            let before = seq![text.first()] + found.before;
            assert(rest.subrange(0, n) == found.before + found.matched);
            assert(text.subrange(0, n + 1) =~= seq![text.first()] + rest.subrange(0, n));
            assert(before + found.matched =~= seq![text.first()] + (found.before + found.matched));
            assert(text.skip(before.len() as int) =~= rest.skip(found.before.len() as int));
        }
    }
}

/// A text without the keyword holds no directive.
pub proof fn lemma_directive_needs_keyword(text: Seq<char>)
    requires
        !contains_text(text, KEYWORD@),
    ensures
        first_directive(text) is None,
    decreases text.len(),
{
    if directive_at_start(text) is Some {
        assert(occurs_at(text, KEYWORD@, 0));
    }
    if text.len() > 0 {
        let rest = text.drop_first();
        if contains_text(rest, KEYWORD@) {
            assert(rest =~= text.subrange(1, text.len() as int));
            lemma_part_contains(text, 1, text.len() as int, KEYWORD@);
        }
        lemma_directive_needs_keyword(rest);
    }
}

/// White space behind a cut does not matter: a text that is cut behind its first character
/// that is no white space, or later, has the same white space at its start.
proof fn lemma_trimmed_start_of_cut(s: Seq<char>, n: int)
    requires
        0 <= n <= s.len(),
        s.len() - trimmed_start(s).len() < n || n == s.len(),
    ensures
        trimmed_start(s.take(n)) == trimmed_start(s).take(n - (s.len() - trimmed_start(s).len())),
    decreases s.len(),
{
    lemma_trimmed_start(s);
    if n == s.len() {
        assert(s.take(n) =~= s);
        assert(trimmed_start(s).take(trimmed_start(s).len() as int) =~= trimmed_start(s));
    } else if s.len() > 0 && white_space(s.first()) {
        let rest = s.drop_first();
        lemma_trimmed_start_of_cut(rest, n - 1);
        assert(s.take(n).drop_first() =~= rest.take(n - 1));
    }
}

/// A directive by itself is read as it is read in the text that it was found in.
pub proof fn lemma_directive_by_itself(text: Seq<char>)
    requires
        directive_at_start(text) is Some,
    ensures
        directive_at_start(text) matches Some((matched, rule)) && first_directive(matched) == Some(
            FoundDirective { before: Seq::empty(), matched, rule },
        ),
{
    let (matched, rule) = directive_at_start(text)->0;
    let k = KEYWORD@.len() as int;
    let after = text.skip(k);
    let word = trimmed_start(after);
    let tail = word.skip("ignore"@.len() as int);
    let group = trimmed_start(tail);
    let n = matched.len() as int;
    reveal_strlit("hermit:");
    reveal_strlit("ignore");
    reveal_strlit("[");
    lemma_directive_at_start(text);
    lemma_trimmed_start(after);
    lemma_trimmed_start(tail);
    lemma_first_position(group, ']');
    assert(matched.subrange(0, k) =~= text.subrange(0, k));
    assert(matched.skip(k) =~= after.take(n - k));
    lemma_trimmed_start_of_cut(after, n - k);
    let cut_word = trimmed_start(matched.skip(k));
    let m = cut_word.len() as int;
    assert(cut_word == word.take(m));
    assert(cut_word.subrange(0, 6) =~= word.subrange(0, 6));
    let cut_tail = cut_word.skip(6);
    assert(cut_tail =~= tail.take(m - 6));
    if rule is Some {
        let end = first_position(group, ']');
        lemma_trimmed_start_of_cut(tail, m - 6);
        let cut_group = trimmed_start(cut_tail);
        assert(cut_group =~= group.take(end + 1));
        assert(cut_group[end] == ']');
        lemma_first_position(cut_group, ']');
        assert(first_position(cut_group, ']') == end) by {
            let other = first_position(cut_group, ']');
            assert(cut_group[other] == ']' && group[other] == ']');
        }
        assert(cut_group.subrange(0, 1) =~= group.subrange(0, 1));
        assert(cut_group.subrange(1, end) =~= group.subrange(1, end));
    } else {
        assert(cut_tail.len() == 0);
    }
    assert(matched.take(n) =~= matched);
}

/// The first directive in a text is the one behind a start without the keyword. The keyword
/// cannot begin in that start and end behind it.
pub proof fn lemma_directive_behind(head: Seq<char>, tail: Seq<char>)
    requires
        !contains_text(head, KEYWORD@),
        directive_at_start(tail) is Some,
    ensures
        directive_at_start(tail) matches Some((matched, rule)) && first_directive(head + tail)
            == Some(FoundDirective { before: head, matched, rule }),
    decreases head.len(),
{
    let text = head + tail;
    if head.len() == 0 {
        assert(text =~= tail);
        assert(head =~= Seq::<char>::empty());
    } else {
        let rest = head.drop_first();
        if contains_text(rest, KEYWORD@) {
            assert(rest =~= head.subrange(1, head.len() as int));
            lemma_part_contains(head, 1, head.len() as int, KEYWORD@);
        }
        lemma_directive_behind(rest, tail);
        assert(text.drop_first() =~= rest + tail);
        assert(head =~= seq![head.first()] + rest);
        if directive_at_start(text) is Some {
            reveal_strlit("hermit:");
            let n = head.len() as int;
            if n >= 7 {
                assert(head.subrange(0, 7) =~= text.subrange(0, 7));
                assert(occurs_at(head, KEYWORD@, 0));
            } else {
                assert(text.subrange(0, 7)[n] == text[n]);
                assert(tail.subrange(0, 7)[0] == tail[0]);
                assert(text[n] == tail[0]);
            }
        }
    }
}

/// The rule that a directive in its usual form names: `hermit: ignore` names none, and
/// `hermit: ignore[rule]` names what stands between the brackets. `None` for another text.
pub open spec fn usual_directive(text: Seq<char>) -> Option<Option<Seq<char>>> {
    let opening = "hermit: ignore["@;
    let rule = text.subrange(opening.len() as int, text.len() - 1);
    if text == "hermit: ignore"@ {
        Some(None)
    } else if opening.is_prefix_of(text) && "]"@.is_suffix_of(text) && !rule.contains(']') {
        Some(Some(rule))
    } else {
        None
    }
}

/// `hermit: ignore` starts with a directive, whatever follows it.
pub proof fn lemma_usual_start(rest: Seq<char>)
    ensures
        directive_at_start("hermit: ignore"@ + rest) is Some,
        trimmed_start(("hermit: ignore"@ + rest).skip(7)).skip(6) == rest,
{
    let text = "hermit: ignore"@ + rest;
    let after = text.skip(7);
    reveal_strlit("hermit:");
    reveal_strlit("ignore");
    reveal_strlit("hermit: ignore");
    assert(text.subrange(0, 7) =~= "hermit:"@);
    assert(after.first() == ' ');
    assert(after.drop_first().first() == 'i');
    assert(trimmed_start(after.drop_first()) == after.drop_first());
    assert(trimmed_start(after) == after.drop_first());
    assert(after.drop_first().subrange(0, 6) =~= "ignore"@);
    assert(after.drop_first().skip(6) =~= rest);
}

/// A directive in its usual form is found from end to end, with the rule that it names.
pub proof fn lemma_usual_directive(text: Seq<char>)
    requires
        usual_directive(text) is Some,
    ensures
        directive_at_start(text) == Some((text, usual_directive(text)->0)),
        first_directive(text) == Some(
            FoundDirective {
                before: Seq::empty(),
                matched: text,
                rule: usual_directive(text)->0,
            },
        ),
{
    reveal_strlit("hermit:");
    reveal_strlit("ignore");
    reveal_strlit("hermit: ignore");
    reveal_strlit("hermit: ignore[");
    reveal_strlit("[");
    reveal_strlit("]");
    let rest = text.skip(14);
    assert(text.take(text.len() as int) =~= text);
    if text == "hermit: ignore"@ {
        assert(text =~= "hermit: ignore"@ + rest);
        lemma_usual_start(rest);
    } else {
        assert(text.subrange(0, 15) == "hermit: ignore["@);
        assert forall|i: int| 0 <= i < 15 implies text[i] == "hermit: ignore["@[i] by {
            assert(text.subrange(0, 15)[i] == text[i]);
        }
        assert(text =~= "hermit: ignore"@ + rest);
        lemma_usual_start(rest);
        assert(rest.first() == '[');
        assert(trimmed_start(rest) == rest);
        assert(rest.subrange(0, 1) =~= "["@);
        let n = rest.len() as int;
        let rule = text.subrange(15, text.len() - 1);
        assert(text.subrange(text.len() - 1, text.len() as int)[0] == text.last());
        assert(rest[n - 1] == ']');
        lemma_first_position(rest, ']');
        let end = first_position(rest, ']');
        if end < n - 1 {
            assert(rule[end - 1] == rest[end]);
        }
        assert(rest.subrange(1, end) =~= rule);
    }
}

/// The text is one address.
pub open spec fn whole_address(text: Seq<char>) -> bool {
    address_at_start(text) == Some(text)
}

/// An address behind a space is added to the addresses before it.
pub proof fn lemma_added_to_addresses(head: Seq<char>, address: Seq<char>)
    requires
        whole_address(address),
    ensures
        addresses(head + seq![' '] + address) == addresses(head).push(address),
    decreases head.len(),
{
    let text = head + seq![' '] + address;
    lemma_scheme_before_space(head, address);
    lemma_address_at_start(head);
    lemma_address_at_start(address);
    if head.len() == 0 {
        assert(text.drop_first() =~= address);
        let none = address.skip(address.len() as int);
        assert(addresses(none) =~= Seq::<Seq<char>>::empty());
        assert(addresses(address) == seq![address] + addresses(none));
        assert(addresses(address) =~= seq![address]);
        assert(addresses(head).push(address) =~= seq![address]);
    } else {
        match address_at_start(head) {
            Some(first) => {
                let n = first.len() as int;
                assert(text.skip(n) =~= head.skip(n) + seq![' '] + address);
                lemma_added_to_addresses(head.skip(n), address);
                assert(seq![first] + addresses(head.skip(n)).push(address) =~= (seq![first]
                    + addresses(head.skip(n))).push(address));
            },
            None => {
                assert(text.drop_first() =~= head.drop_first() + seq![' '] + address);
                lemma_added_to_addresses(head.drop_first(), address);
            },
        }
    }
}

/// No address holds a space, so what stands behind one does not matter to an address before
/// it.
proof fn lemma_scheme_before_space(head: Seq<char>, rest: Seq<char>)
    ensures
        address_at_start(head + seq![' '] + rest) == address_at_start(head),
{
    let text = head + seq![' '] + rest;
    let pred = |c: char| address_char(c);
    reveal_strlit("https://");
    reveal_strlit("http://");
    lemma_prefix_before_space(head, rest, "https://"@);
    lemma_prefix_before_space(head, rest, "http://"@);
    let scheme = if "https://"@.is_prefix_of(text) {
        "https://"@
    } else {
        "http://"@
    };
    if scheme.is_prefix_of(text) {
        let k = scheme.len() as int;
        assert(text.skip(k) =~= head.skip(k) + seq![' '] + rest);
        lemma_leading_stops(head.skip(k), ' ', rest, pred);
    }
}

proof fn lemma_prefix_before_space(head: Seq<char>, rest: Seq<char>, prefix: Seq<char>)
    requires
        !prefix.contains(' '),
    ensures
        prefix.is_prefix_of(head + seq![' '] + rest) == prefix.is_prefix_of(head),
{
    let text = head + seq![' '] + rest;
    let k = prefix.len() as int;
    if k <= head.len() {
        assert(text.subrange(0, k) =~= head.subrange(0, k));
    } else if prefix.is_prefix_of(text) {
        assert(text.subrange(0, k)[head.len() as int] == ' ');
        assert(prefix[head.len() as int] == ' ');
    }
}

} // verus!
