//! What the reading of addresses promises, in terms of the parts that they are written with.

use vstd::prelude::*;

use crate::grammar::{
    address_at_start, address_char, addresses, hex_digit, lemma_added_to_addresses, names_raw_file,
    raw_file_at_start, segment_char, whole_address,
};
use crate::guarantees::lemma_pinned_before_pipe;
use crate::rules::pinned_raw_github_url;
use crate::text::{
    before_first, leading, lemma_first_position, lemma_leading, occurs_at, white_space,
};

verus! {

/// A character ends an address: white space, a quotation mark, an apostrophe or `|`.
pub open spec fn ends_address(c: char) -> bool {
    white_space(c) || c as int == 34 || c as int == 39 || c as int == 124
}

/// No character of the text ends an address.
pub open spec fn unbroken(s: Seq<char>) -> bool {
    forall|i: int| 0 <= i < s.len() ==> !ends_address(#[trigger] s[i])
}

/// The leading characters of a text of two parts are the first part, where they all count and
/// the second part starts with one that does not.
proof fn lemma_leading_part(run: Seq<char>, rest: Seq<char>, pred: spec_fn(char) -> bool)
    requires
        forall|i: int| 0 <= i < run.len() ==> pred(#[trigger] run[i]),
        rest.len() > 0 ==> !pred(rest.first()),
    ensures
        leading(run + rest, pred) == run,
{
    let s = run + rest;
    let found = leading(s, pred);
    lemma_leading(s, pred);
    let n = found.len() as int;
    if n < run.len() {
        assert(s[n] == run[n]);
    } else if n > run.len() {
        assert(found[run.len() as int] == s.subrange(0, n)[run.len() as int]);
        assert(s[run.len() as int] == rest.first());
    }
    assert(found =~= run) by {
        assert(s.subrange(0, n) =~= run);
    }
}

/// An address is `http://` or `https://` and all that follows up to white space, a quotation
/// mark, an apostrophe, a `|` or the end. The next address is looked for behind it.
pub proof fn lemma_address(secure: bool, run: Seq<char>, rest: Seq<char>)
    requires
        run.len() > 0 && unbroken(run),
        rest.len() > 0 ==> ends_address(rest.first()),
    ensures
        ({
            let address = if secure {
                "https://"@
            } else {
                "http://"@
            } + run;
            &&& addresses(address + rest) == seq![address] + addresses(rest)
            &&& whole_address(address)
        }),
{
    reveal_strlit("https://");
    reveal_strlit("http://");
    let scheme = if secure {
        "https://"@
    } else {
        "http://"@
    };
    let address = scheme + run;
    lemma_address_starts(secure, run, rest);
    lemma_address_starts(secure, run, Seq::empty());
    assert(address + Seq::<char>::empty() =~= address);
    assert((address + rest).skip(address.len() as int) =~= rest);
}

proof fn lemma_address_starts(secure: bool, run: Seq<char>, rest: Seq<char>)
    requires
        run.len() > 0 && unbroken(run),
        rest.len() > 0 ==> ends_address(rest.first()),
    ensures
        address_at_start(
            if secure {
                "https://"@
            } else {
                "http://"@
            } + run + rest,
        ) == Some(
            if secure {
                "https://"@
            } else {
                "http://"@
            } + run,
        ),
{
    reveal_strlit("https://");
    reveal_strlit("http://");
    let scheme = if secure {
        "https://"@
    } else {
        "http://"@
    };
    let text = scheme + run + rest;
    let pred = |c: char| address_char(c);
    assert(text.subrange(0, scheme.len() as int) =~= scheme);
    if !secure {
        assert(text[4] == ':');
        assert(!"https://"@.is_prefix_of(text)) by {
            if "https://"@.is_prefix_of(text) {
                assert(text.subrange(0, 8)[4] == text[4]);
            }
        }
    }
    assert(text.skip(scheme.len() as int) =~= run + rest);
    assert forall|i: int| 0 <= i < run.len() implies pred(#[trigger] run[i]) by {
        assert(!ends_address(run[i]));
    }
    lemma_leading_part(run, rest, pred);
}

/// Where no address starts at the first character of a text, its addresses are those behind
/// that character.
pub proof fn lemma_no_address_here(c: char, rest: Seq<char>)
    requires
        ({
            let text = seq![c] + rest;
            &&& "http://"@.is_prefix_of(text) ==> text.len() == 7 || ends_address(text[7])
            &&& "https://"@.is_prefix_of(text) ==> text.len() == 8 || ends_address(text[8])
        }),
    ensures
        addresses(seq![c] + rest) == addresses(rest),
        addresses(Seq::empty()) == Seq::<Seq<char>>::empty(),
{
    reveal_strlit("https://");
    reveal_strlit("http://");
    let text = seq![c] + rest;
    let pred = |x: char| address_char(x);
    assert(text.drop_first() =~= rest);
    let k: int = if "https://"@.is_prefix_of(text) {
        8
    } else {
        7
    };
    if text.len() > k {
        assert(text.skip(k).first() == text[k]);
    }
    assert(addresses(Seq::empty()) =~= Seq::<Seq<char>>::empty());
}

/// A part of an address between two slashes: not empty, and without white space, quotation
/// marks and apostrophes.
pub open spec fn segment(s: Seq<char>) -> bool {
    &&& s.len() > 0
    &&& forall|i: int|
        0 <= i < s.len() ==> {
            let c = #[trigger] s[i];
            c != '/' && !white_space(c) && c as int != 34 && c as int != 39
        }
}

/// A full commit hash: forty hexadecimal digits.
pub open spec fn full_hash(s: Seq<char>) -> bool {
    &&& s.len() == 40
    &&& forall|i: int|
        0 <= i < s.len() ==> {
            let n = (#[trigger] s[i]) as int;
            48 <= n <= 57 || 65 <= n <= 70 || 97 <= n <= 102
        }
}

/// The address of a raw file on GitHub: the host, an owner, a repository, a version and a
/// path, with slashes between them.
pub open spec fn raw_address(
    owner: Seq<char>,
    repository: Seq<char>,
    version: Seq<char>,
    path: Seq<char>,
) -> Seq<char> {
    "https://raw.githubusercontent.com/"@ + owner + "/"@ + repository + "/"@ + version + "/"@ + path
}

/// A raw file on GitHub is pinned exactly where its version is a full commit hash, neither
/// shorter nor longer.
pub proof fn lemma_raw_address(
    owner: Seq<char>,
    repository: Seq<char>,
    version: Seq<char>,
    path: Seq<char>,
)
    requires
        segment(owner),
        segment(repository),
        !version.contains('/'),
        path.len() > 0 && !ends_address(path.first()),
    ensures
        raw_file_at_start(raw_address(owner, repository, version, path)) <==> full_hash(version),
        full_hash(version) ==> names_raw_file(raw_address(owner, repository, version, path)),
{
    reveal_strlit("https://raw.githubusercontent.com/");
    reveal_strlit("/");
    let host = "https://raw.githubusercontent.com/"@;
    let text = raw_address(owner, repository, version, path);
    let pred = |c: char| segment_char(c);
    let rest = version + "/"@ + path;
    let a = owner + ("/"@ + repository + "/"@ + rest);
    assert(text.subrange(0, 34) =~= host);
    assert(text.skip(34) =~= a);
    assert forall|i: int| 0 <= i < owner.len() implies pred(#[trigger] owner[i]) by {}
    assert forall|i: int| 0 <= i < repository.len() implies pred(#[trigger] repository[i]) by {}
    lemma_leading_part(owner, "/"@ + repository + "/"@ + rest, pred);
    let b = a.skip(owner.len() as int);
    assert(b =~= "/"@ + repository + "/"@ + rest);
    assert(b.subrange(0, 1) =~= "/"@);
    assert(b.skip(1) =~= repository + ("/"@ + rest));
    lemma_leading_part(repository, "/"@ + rest, pred);
    let c = b.skip(1).skip(repository.len() as int);
    assert(c =~= "/"@ + rest);
    assert(c.subrange(0, 1) =~= "/"@);
    assert(c.skip(1) =~= rest);
    if full_hash(version) {
        assert forall|i: int| 0 <= i < 40 implies hex_digit(#[trigger] rest[i]) by {
            assert(rest[i] == version[i]);
        }
        assert(rest[40] == '/');
        assert(rest[41] == path.first());
        assert(text.skip(0) =~= text);
    }
    if raw_file_at_start(text) {
        if version.len() > 40 {
            assert(version[40] == rest[40]);
        } else if version.len() < 40 {
            assert(rest[version.len() as int] == '/');
            assert(hex_digit(rest[version.len() as int]));
        }
        assert forall|i: int| 0 <= i < version.len() implies {
            let n = (#[trigger] version[i]) as int;
            48 <= n <= 57 || 65 <= n <= 70 || 97 <= n <= 102
        } by {
            assert(hex_digit(rest[i]));
        }
    }
}

/// Where a raw file on GitHub at a full commit hash is found, its address stands in the text.
pub proof fn lemma_raw_file_is_written(text: Seq<char>) -> (parts: (
    Seq<char>,
    Seq<char>,
    Seq<char>,
    Seq<char>,
    Seq<char>,
))
    requires
        names_raw_file(text),
    ensures
        segment(parts.1),
        segment(parts.2),
        full_hash(parts.3),
        parts.4.len() > 0 && !ends_address(parts.4.first()),
        text == parts.0 + raw_address(parts.1, parts.2, parts.3, parts.4),
{
    let i = choose|i: int| 0 <= i <= text.len() && raw_file_at_start(#[trigger] text.skip(i));
    let parts = lemma_raw_start_parts(text.skip(i));
    assert(text =~= text.take(i) + text.skip(i));
    (text.take(i), parts.0, parts.1, parts.2, parts.3)
}

proof fn lemma_raw_start_parts(found: Seq<char>) -> (parts: (
    Seq<char>,
    Seq<char>,
    Seq<char>,
    Seq<char>,
))
    requires
        raw_file_at_start(found),
    ensures
        segment(parts.0),
        segment(parts.1),
        full_hash(parts.2),
        parts.3.len() > 0 && !ends_address(parts.3.first()),
        found == raw_address(parts.0, parts.1, parts.2, parts.3),
{
    reveal_strlit("/");
    let pred = |c: char| segment_char(c);
    let host = "https://raw.githubusercontent.com/"@;
    let k = host.len() as int;
    let a = found.skip(k);
    let owner = leading(a, pred);
    lemma_leading(a, pred);
    let b = a.skip(owner.len() as int);
    let repository = leading(b.skip(1), pred);
    lemma_leading(b.skip(1), pred);
    let c = b.skip(1).skip(repository.len() as int);
    let rest = c.skip(1);
    let version = rest.take(40);
    let path = rest.skip(41);
    lemma_split(found, host);
    lemma_split(a, owner);
    lemma_split(b, "/"@);
    lemma_split(b.skip(1), repository);
    lemma_split(c, "/"@);
    assert(rest =~= version + "/"@ + path);
    lemma_raw_parts_joined(owner, repository, version, path, a, b, c, rest);
    lemma_segment(owner);
    lemma_segment(repository);
    assert(full_hash(version)) by {
        assert forall|j: int| 0 <= j < version.len() implies {
            let n = (#[trigger] version[j]) as int;
            48 <= n <= 57 || 65 <= n <= 70 || 97 <= n <= 102
        } by {
            assert(hex_digit(rest[j]));
        }
    }
    assert(path.first() == rest[41]);
    (owner, repository, version, path)
}

proof fn lemma_split(s: Seq<char>, start: Seq<char>)
    requires
        start.is_prefix_of(s),
    ensures
        s == start + s.skip(start.len() as int),
{
    assert(s.subrange(0, start.len() as int) == start);
    assert(s =~= start + s.skip(start.len() as int));
}

proof fn lemma_segment(s: Seq<char>)
    requires
        s.len() > 0,
        forall|i: int| 0 <= i < s.len() ==> segment_char(#[trigger] s[i]),
    ensures
        segment(s),
{
}

proof fn lemma_raw_parts_joined(
    owner: Seq<char>,
    repository: Seq<char>,
    version: Seq<char>,
    path: Seq<char>,
    a: Seq<char>,
    b: Seq<char>,
    c: Seq<char>,
    rest: Seq<char>,
)
    requires
        a == owner + b,
        b == "/"@ + b.skip(1),
        b.skip(1) == repository + c,
        c == "/"@ + rest,
        rest == version + "/"@ + path,
    ensures
        "https://raw.githubusercontent.com/"@ + a == raw_address(owner, repository, version, path),
{
    let slash = "/"@;
    let host = "https://raw.githubusercontent.com/"@;
    assert(host + a =~= host + owner + b);
    assert(host + owner + b =~= host + owner + slash + b.skip(1));
    assert(host + owner + slash + b.skip(1) =~= host + owner + slash + repository + c);
    assert(host + owner + slash + repository + c =~= host + owner + slash + repository + slash
        + rest);
    assert(host + owner + slash + repository + slash + rest =~= host + owner + slash + repository
        + slash + version + slash + path);
}

/// A raw file on GitHub is not pinned where its version is a tag, a branch or a hash of another
/// length, unless its path holds a second such address.
pub proof fn lemma_other_version_is_not_pinned(
    owner: Seq<char>,
    repository: Seq<char>,
    version: Seq<char>,
    path: Seq<char>,
)
    requires
        segment(owner),
        segment(repository),
        !version.contains('/'),
        path.len() > 0 && !ends_address(path.first()),
        !full_hash(version),
        forall|i: int| #[trigger]
            occurs_at(
                raw_address(owner, repository, version, path),
                "https://raw.githubusercontent.com/"@,
                i,
            ) ==> i == 0,
    ensures
        !names_raw_file(raw_address(owner, repository, version, path)),
{
    let url = raw_address(owner, repository, version, path);
    let host = "https://raw.githubusercontent.com/"@;
    lemma_raw_address(owner, repository, version, path);
    if names_raw_file(url) {
        let i = choose|i: int| 0 <= i <= url.len() && raw_file_at_start(#[trigger] url.skip(i));
        let k = host.len() as int;
        assert(url.skip(i).subrange(0, k) =~= url.subrange(i, i + k));
        assert(occurs_at(url, host, i));
        assert(url.skip(0) =~= url);
    }
}

/// A download from one address before the first `|`, where that is a raw file on GitHub at a
/// full commit hash, is pinned, whatever follows the `|`.
pub proof fn lemma_pinned(
    command: Seq<char>,
    owner: Seq<char>,
    repository: Seq<char>,
    version: Seq<char>,
    path: Seq<char>,
    rest: Seq<char>,
)
    requires
        !command.contains('|'),
        addresses(command).len() == 0,
        segment(owner) && unbroken(owner),
        segment(repository) && unbroken(repository),
        !version.contains('/') && unbroken(version),
        path.len() > 0 && unbroken(path),
        full_hash(version),
    ensures
        pinned_raw_github_url(
            command + seq![' '] + raw_address(owner, repository, version, path) + seq!['|'] + rest,
        ),
        pinned_raw_github_url(
            command + seq![' '] + raw_address(owner, repository, version, path),
        ),
{
    let url = raw_address(owner, repository, version, path);
    let head = command + seq![' '] + url;
    assert(!ends_address(path[0]));
    lemma_raw_address(owner, repository, version, path);
    let run = lemma_raw_address_unbroken(owner, repository, version, path);
    lemma_address(true, run, Seq::empty());
    lemma_one_command(command, url);
    lemma_added_to_addresses(command, url);
    assert(addresses(head)[0] == url);
    lemma_pinned_before_pipe(head, rest);
}

proof fn lemma_one_command(command: Seq<char>, url: Seq<char>)
    requires
        !command.contains('|'),
        unbroken(url),
    ensures
        !(command + seq![' '] + url).contains('|'),
        before_first(command + seq![' '] + url, '|') == command + seq![' '] + url,
{
    let head = command + seq![' '] + url;
    assert forall|i: int| 0 <= i < head.len() implies head[i] != '|' by {
        if i > command.len() {
            assert(!ends_address(url[i - command.len() - 1]));
            assert(head[i] == url[i - command.len() - 1]);
        } else if i < command.len() {
            assert(head[i] == command[i]);
        }
    }
    lemma_first_position(head, '|');
    assert(before_first(head, '|') =~= head);
}

proof fn lemma_raw_address_unbroken(
    owner: Seq<char>,
    repository: Seq<char>,
    version: Seq<char>,
    path: Seq<char>,
) -> (run: Seq<char>)
    requires
        unbroken(owner),
        unbroken(repository),
        unbroken(version),
        unbroken(path),
    ensures
        run.len() > 0,
        unbroken(run),
        unbroken(raw_address(owner, repository, version, path)),
        raw_address(owner, repository, version, path) == "https://"@ + run,
{
    let host = "https://raw.githubusercontent.com/"@;
    let slash = "/"@;
    assert(unbroken(slash) && unbroken(host)) by {
        reveal_strlit("/");
        reveal_strlit("https://raw.githubusercontent.com/");
    }
    lemma_unbroken_joined(host, owner);
    lemma_unbroken_joined(host + owner, slash);
    lemma_unbroken_joined(host + owner + slash, repository);
    lemma_unbroken_joined(host + owner + slash + repository, slash);
    lemma_unbroken_joined(host + owner + slash + repository + slash, version);
    lemma_unbroken_joined(host + owner + slash + repository + slash + version, slash);
    lemma_unbroken_joined(host + owner + slash + repository + slash + version + slash, path);
    let url = raw_address(owner, repository, version, path);
    let run = url.skip(8);
    assert(url.len() > 8 && url =~= "https://"@ + run) by {
        reveal_strlit("https://raw.githubusercontent.com/");
        reveal_strlit("https://");
        assert forall|i: int| 0 <= i < 8 implies url[i] == "https://"@[i] by {
            assert(url[i] == host[i]);
        }
    }
    assert forall|i: int| 0 <= i < run.len() implies !ends_address(#[trigger] run[i]) by {
        assert(!ends_address(url[i + 8]));
    }
    run
}

proof fn lemma_unbroken_joined(a: Seq<char>, b: Seq<char>)
    requires
        unbroken(a),
        unbroken(b),
    ensures
        unbroken(a + b),
{
    let s = a + b;
    assert forall|i: int| 0 <= i < s.len() implies !ends_address(#[trigger] s[i]) by {
        if i < a.len() {
            assert(s[i] == a[i]);
        } else {
            assert(s[i] == b[i - a.len()]);
        }
    }
}

/// A line without an address before its first `|` is not pinned.
pub proof fn lemma_no_address_is_no_pin(command: Seq<char>, rest: Seq<char>)
    requires
        !command.contains('|'),
        addresses(command).len() == 0,
    ensures
        !pinned_raw_github_url(command),
        !pinned_raw_github_url(command + seq!['|'] + rest),
{
    lemma_first_position(command, '|');
    assert(before_first(command, '|') =~= command);
    lemma_pinned_before_pipe(command, rest);
}

/// Where one address stands before the first `|`, it alone decides whether the line is pinned.
pub proof fn lemma_only_address_decides(command: Seq<char>, address: Seq<char>, rest: Seq<char>)
    requires
        !command.contains('|'),
        addresses(command) == seq![address],
    ensures
        pinned_raw_github_url(command) == names_raw_file(address),
        pinned_raw_github_url(command + seq!['|'] + rest) == names_raw_file(address),
{
    lemma_first_position(command, '|');
    assert(before_first(command, '|') =~= command);
    lemma_pinned_before_pipe(command, rest);
}

} // verus!
