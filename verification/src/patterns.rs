//! The regular expressions that the rules and the ignore directives are made of.

use regex::Regex;
use vstd::prelude::*;

use crate::grammar::{addresses, first_directive, names_raw_file};
use crate::text::{contains_text, texts};

verus! {

/// A download that is piped into a shell.
pub const CURL_PIPE_SHELL: &'static str = r"\b(curl|wget)\b.*\|.*\b(bash|sh|zsh|fish|dash)\b";

/// A download that is piped into a scripting interpreter.
pub const CURL_PIPE_INTERPRETER: &'static str =
    r"\b(curl|wget)\b.*\|.*\b(python[23]?|perl|ruby|lua[0-9]*|node)\b";

/// A raw file on GitHub at a full commit hash.
pub const RAW_GITHUB_FULL_COMMIT: &'static str =
    r#"https://raw\.githubusercontent\.com/[^/\s'"]+/[^/\s'"]+/[0-9a-fA-F]{40}/[^\s|'"]+"#;

/// A remote address.
pub const REMOTE_URL: &'static str = r#"https?://[^\s|'"]+"#;

/// A download whose output is evaluated: `eval "$(curl ...)"`, with backquotes too.
pub const CURL_EVAL: &'static str = r"\beval\s+.*(\$\(|`).*\b(curl|wget)\b";

/// An ignore directive, with the rule that it names as group 1.
pub const IGNORE: &'static str = r"hermit:\s*ignore(?:\s*\[([^\]]*)\])?";

/// The regular expressions of this crate. Each of them is valid.
pub open spec fn known_pattern(pattern: Seq<char>) -> bool {
    ||| pattern == CURL_PIPE_SHELL@
    ||| pattern == CURL_PIPE_INTERPRETER@
    ||| pattern == RAW_GITHUB_FULL_COMMIT@
    ||| pattern == REMOTE_URL@
    ||| pattern == CURL_EVAL@
    ||| pattern == IGNORE@
}

/// The text names a program that downloads.
pub open spec fn mentions_download(text: Seq<char>) -> bool {
    contains_text(text, "curl"@) || contains_text(text, "wget"@)
}

/// The text holds the literal text that a pattern of the rules asks for.
pub open spec fn holds_literals(pattern: Seq<char>, text: Seq<char>) -> bool {
    &&& pattern == CURL_PIPE_SHELL@ || pattern == CURL_PIPE_INTERPRETER@ ==> mentions_download(text)
        && text.contains('|')
    &&& pattern == CURL_EVAL@ ==> mentions_download(text) && contains_text(text, "eval"@)
}

/// A compiled regular expression of the `regex` crate.
#[verifier::external_type_specification]
#[verifier::external_body]
pub struct ExRegex(regex::Regex);

/// The view of a regex: the pattern that `regex::Regex::new` compiled it from, or `None` for
/// a regex that was made in another way, with options of its own.
pub uninterp spec fn regex_source(regex: Regex) -> Option<Seq<char>>;

/// What `regex::Regex::is_match` returns.
pub uninterp spec fn regex_is_match(pattern: Seq<char>, text: Seq<char>) -> bool;

/// Calls `regex::Regex::new`. It accepts the patterns of this crate, and the regex that it
/// returns is compiled from the pattern.
#[verifier::external_body]
fn compile_regex(pattern: &str) -> (regex: Regex)
    requires
        known_pattern(pattern@),
    ensures
        regex_source(regex) == Some(pattern@),
{
    Regex::new(pattern).unwrap()
}

/// Calls `regex::Regex::is_match`. Whether a regex matches depends on its pattern and on
/// the text alone. What matches a pattern of the rules holds the literal text that the
/// pattern asks for: a literal matches itself only, and a sequence matches only where each
/// of its parts does. `RAW_GITHUB_FULL_COMMIT` matches where the text holds the address of a
/// raw file on GitHub at a full commit hash.
#[verifier::external_body]
fn call_is_match(regex: &Regex, text: &str) -> (matched: bool)
    ensures
        regex_source(*regex) matches Some(pattern) ==> matched == regex_is_match(pattern, text@),
        regex_source(*regex) matches Some(pattern) ==> matched ==> holds_literals(pattern, text@),
        regex_source(*regex) == Some(RAW_GITHUB_FULL_COMMIT@) ==> matched == names_raw_file(text@),
{
    regex.is_match(text)
}

/// Calls `regex::Regex::find` for the pattern `IGNORE`. The search goes from the left, and
/// each repetition and the bracketed group take what they can: it finds the first directive
/// in the text. What is returned is the text before the match, and the match.
#[verifier::external_body]
fn call_find(regex: &Regex, text: &str) -> (found: Option<(String, String)>)
    requires
        regex_source(*regex) == Some(IGNORE@),
    ensures
        match found {
            Some((before, matched)) => first_directive(text@) matches Some(directive)
                && directive.before == before@ && directive.matched == matched@,
            None => first_directive(text@) is None,
        },
{
    regex.find(text).map(|m| (text[..m.start()].to_string(), m.as_str().to_string()))
}

/// Calls `regex::Regex::find_iter` for the pattern `REMOTE_URL` and collects the matched
/// texts. Each search starts behind the last match, goes from the left and takes what it
/// can: it yields the addresses in the text.
#[verifier::external_body]
fn call_find_iter(regex: &Regex, text: &str) -> (found: Vec<String>)
    requires
        regex_source(*regex) == Some(REMOTE_URL@),
    ensures
        texts(found@) == addresses(text@),
{
    regex.find_iter(text).map(|m| m.as_str().to_string()).collect()
}

/// Calls `regex::Regex::captures` for the pattern `IGNORE` and looks up group 1 of the first
/// match, which is what `regex::Regex::find` finds. The group is what stands between the
/// brackets of the directive, if it has any.
#[verifier::external_body]
fn call_captures(regex: &Regex, text: &str) -> (found: Option<Option<String>>)
    requires
        regex_source(*regex) == Some(IGNORE@),
    ensures
        match found {
            Some(Some(rule)) => first_directive(text@) matches Some(directive) && directive.rule
                == Some(rule@),
            Some(None) => first_directive(text@) matches Some(directive) && directive.rule is None,
            None => first_directive(text@) is None,
        },
{
    regex.captures(text).map(|c| c.get(1).map(|m| m.as_str().to_string()))
}

/// A compiled regular expression together with its source, which its view is. The type
/// invariant says that the regular expression was compiled from that source, so that the
/// view stands for both.
pub struct Pattern {
    source: &'static str,
    regex: Regex,
}

impl View for Pattern {
    type V = Seq<char>;

    closed spec fn view(&self) -> Seq<char> {
        self.source@
    }
}

impl Pattern {
    #[verifier::type_invariant]
    spec fn compiled(self) -> bool {
        regex_source(self.regex) == Some(self.source@)
    }

    /// Compiles one of the crate's patterns.
    pub fn compile(source: &'static str) -> (pattern: Pattern)
        requires
            known_pattern(source@),
        ensures
            pattern@ == source@,
    {
        Pattern { source, regex: compile_regex(source) }
    }

    /// Whether the pattern matches anywhere in the text.
    pub fn is_match(&self, text: &str) -> (matched: bool)
        ensures
            matched == regex_is_match(self@, text@),
            matched ==> holds_literals(self@, text@),
            self@ == RAW_GITHUB_FULL_COMMIT@ ==> matched == names_raw_file(text@),
    {
        proof {
            use_type_invariant(self);
        }
        call_is_match(&self.regex, text)
    }

    /// The text before the first directive, and the directive. The pattern is `IGNORE`.
    pub fn find(&self, text: &str) -> (found: Option<(String, String)>)
        requires
            self@ == IGNORE@,
        ensures
            match found {
                Some((before, matched)) => first_directive(text@) matches Some(directive)
                    && directive.before == before@ && directive.matched == matched@,
                None => first_directive(text@) is None,
            },
    {
        proof {
            use_type_invariant(self);
        }
        call_find(&self.regex, text)
    }

    /// The addresses in the text. The pattern is `REMOTE_URL`.
    pub fn find_iter(&self, text: &str) -> (found: Vec<String>)
        requires
            self@ == REMOTE_URL@,
        ensures
            texts(found@) == addresses(text@),
    {
        proof {
            use_type_invariant(self);
        }
        call_find_iter(&self.regex, text)
    }

    /// The rule between the brackets of the first directive. The pattern is `IGNORE`.
    pub fn captures(&self, text: &str) -> (found: Option<Option<String>>)
        requires
            self@ == IGNORE@,
        ensures
            match found {
                Some(Some(rule)) => first_directive(text@) matches Some(directive)
                    && directive.rule == Some(rule@),
                Some(None) => first_directive(text@) matches Some(directive) && directive.rule
                    is None,
                None => first_directive(text@) is None,
            },
    {
        proof {
            use_type_invariant(self);
        }
        call_captures(&self.regex, text)
    }
}

/// The crate's patterns, compiled once for any number of lines.
pub struct Patterns {
    curl_pipe_shell: Pattern,
    curl_pipe_interpreter: Pattern,
    raw_github_full_commit: Pattern,
    remote_url: Pattern,
    curl_eval: Pattern,
    ignore: Pattern,
}

impl Patterns {
    /// Each pattern is compiled from its own source.
    #[verifier::type_invariant]
    pub closed spec fn complete(self) -> bool {
        &&& self.curl_pipe_shell@ == CURL_PIPE_SHELL@
        &&& self.curl_pipe_interpreter@ == CURL_PIPE_INTERPRETER@
        &&& self.raw_github_full_commit@ == RAW_GITHUB_FULL_COMMIT@
        &&& self.remote_url@ == REMOTE_URL@
        &&& self.curl_eval@ == CURL_EVAL@
        &&& self.ignore@ == IGNORE@
    }

    /// Compiles the patterns.
    pub fn new() -> (patterns: Patterns)
        ensures
            patterns.complete(),
    {
        Patterns {
            curl_pipe_shell: Pattern::compile(CURL_PIPE_SHELL),
            curl_pipe_interpreter: Pattern::compile(CURL_PIPE_INTERPRETER),
            raw_github_full_commit: Pattern::compile(RAW_GITHUB_FULL_COMMIT),
            remote_url: Pattern::compile(REMOTE_URL),
            curl_eval: Pattern::compile(CURL_EVAL),
            ignore: Pattern::compile(IGNORE),
        }
    }

    /// The pattern `CURL_PIPE_SHELL`.
    pub fn curl_pipe_shell(&self) -> (pattern: &Pattern)
        ensures
            pattern@ == CURL_PIPE_SHELL@,
    {
        proof {
            use_type_invariant(self);
        }
        &self.curl_pipe_shell
    }

    /// The pattern `CURL_PIPE_INTERPRETER`.
    pub fn curl_pipe_interpreter(&self) -> (pattern: &Pattern)
        ensures
            pattern@ == CURL_PIPE_INTERPRETER@,
    {
        proof {
            use_type_invariant(self);
        }
        &self.curl_pipe_interpreter
    }

    /// The pattern `RAW_GITHUB_FULL_COMMIT`.
    pub fn raw_github_full_commit(&self) -> (pattern: &Pattern)
        ensures
            pattern@ == RAW_GITHUB_FULL_COMMIT@,
    {
        proof {
            use_type_invariant(self);
        }
        &self.raw_github_full_commit
    }

    /// The pattern `REMOTE_URL`.
    pub fn remote_url(&self) -> (pattern: &Pattern)
        ensures
            pattern@ == REMOTE_URL@,
    {
        proof {
            use_type_invariant(self);
        }
        &self.remote_url
    }

    /// The pattern `CURL_EVAL`.
    pub fn curl_eval(&self) -> (pattern: &Pattern)
        ensures
            pattern@ == CURL_EVAL@,
    {
        proof {
            use_type_invariant(self);
        }
        &self.curl_eval
    }

    /// The pattern `IGNORE`.
    pub fn ignore(&self) -> (pattern: &Pattern)
        ensures
            pattern@ == IGNORE@,
    {
        proof {
            use_type_invariant(self);
        }
        &self.ignore
    }
}

} // verus!
