use hermit::patterns::{Pattern, IGNORE, RAW_GITHUB_FULL_COMMIT, REMOTE_URL};
use hermit::rules::is_pinned_raw_github_url;

const HOST: &str = "https://raw.githubusercontent.com/";
const HASH: &str = "0123456789abcdefABCDEF0123456789abcdef01";

/// Calls `f` on every text that is made of at most `count` of the parts.
fn for_each_text(parts: &[&str], count: usize, text: &mut String, f: &mut dyn FnMut(&str)) {
    f(text);
    if count > 0 {
        for part in parts {
            let length = text.len();
            text.push_str(part);
            for_each_text(parts, count - 1, text, f);
            text.truncate(length);
        }
    }
}

fn directive_at_start(text: &str) -> Option<(&str, Option<&str>)> {
    let word = text.strip_prefix("hermit:")?.trim_start();
    let tail = word.strip_prefix("ignore")?;
    let group = tail.trim_start();
    if group.starts_with('[') {
        if let Some(end) = group.find(']') {
            return Some((&text[..text.len() - group.len() + end + 1], Some(&group[1..end])));
        }
    }
    Some((&text[..text.len() - tail.len()], None))
}

fn first_directive(text: &str) -> Option<(&str, &str, Option<&str>)> {
    for (i, _) in text.char_indices() {
        if let Some((matched, rule)) = directive_at_start(&text[i..]) {
            return Some((&text[..i], matched, rule));
        }
    }
    None
}

fn leading(text: &str, holds: fn(char) -> bool) -> &str {
    &text[..text.find(|c| !holds(c)).unwrap_or(text.len())]
}

fn is_address_char(c: char) -> bool {
    !c.is_whitespace() && c != '|' && c != '\'' && c != '"'
}

fn is_segment_char(c: char) -> bool {
    c != '/' && !c.is_whitespace() && c != '\'' && c != '"'
}

fn addresses(text: &str) -> Vec<String> {
    let mut found = Vec::new();
    let mut rest = text;
    while let Some(first) = rest.chars().next() {
        let scheme = if rest.starts_with("https://") { "https://" } else { "http://" };
        let run = rest.strip_prefix(scheme).map_or("", |tail| leading(tail, is_address_char));
        if run.is_empty() {
            rest = &rest[first.len_utf8()..];
        } else {
            found.push(format!("{}{}", scheme, run));
            rest = &rest[scheme.len() + run.len()..];
        }
    }
    found
}

fn raw_file_at_start(text: &str) -> Option<()> {
    let after_host = text.strip_prefix(HOST)?;
    let owner = leading(after_host, is_segment_char);
    let after_owner = after_host[owner.len()..].strip_prefix('/')?;
    let repository = leading(after_owner, is_segment_char);
    let rest: Vec<char> = after_owner[repository.len()..].strip_prefix('/')?.chars().collect();
    if !owner.is_empty()
        && !repository.is_empty()
        && rest.len() > 41
        && rest[..40].iter().all(|c| c.is_ascii_hexdigit())
        && rest[40] == '/'
        && is_address_char(rest[41])
    {
        Some(())
    } else {
        None
    }
}

fn names_raw_file(text: &str) -> bool {
    text.char_indices().any(|(i, _)| raw_file_at_start(&text[i..]).is_some())
}

#[test]
fn directives_are_found_as_they_are_described() {
    let ignore = Pattern::compile(IGNORE);
    let parts = ["hermit:", "ignore", "h", " ", "\u{2003}\n", "[", "]", "ü"];
    for_each_text(&parts, 5, &mut String::new(), &mut |text| {
        let found = ignore.find(text);
        let group = ignore.captures(text);
        match first_directive(text) {
            Some((before, matched, rule)) => {
                assert_eq!(found, Some((before.to_string(), matched.to_string())));
                assert_eq!(group, Some(rule.map(str::to_string)));
            }
            None => {
                assert_eq!(found, None);
                assert_eq!(group, None);
            }
        }
    });
}

#[test]
fn addresses_are_found_as_they_are_described() {
    let remote_url = Pattern::compile(REMOTE_URL);
    let parts = ["http://", "https://", "http", "/", " ", "\u{85}", "'", "\"", "|", "ü"];
    for_each_text(&parts, 4, &mut String::new(), &mut |text| {
        assert_eq!(remote_url.find_iter(text), addresses(text));
    });
}

#[test]
fn raw_files_are_found_as_they_are_described() {
    let raw = Pattern::compile(RAW_GITHUB_FULL_COMMIT);
    let mut matches = 0;
    let parts = ["/", HASH, "o|", "f", "'", " ", HOST];
    for_each_text(&parts, 5, &mut HOST.to_string(), &mut |text| {
        assert_eq!(raw.is_match(text), names_raw_file(text));
        let text = format!("{}/{}/x", text, HASH);
        assert_eq!(raw.is_match(&text), names_raw_file(&text));
        if raw.is_match(&text) {
            matches += 1;
        }
    });
    assert!(matches > 100);
}

#[test]
fn directives_on_given_texts() {
    let ignore = Pattern::compile(IGNORE);
    let found = |text: &str| ignore.find(text).map(|(_, matched)| matched);
    assert_eq!(found("hermit:ignore"), Some("hermit:ignore".to_string()));
    assert_eq!(found("hermit: ignored [x"), Some("hermit: ignore".to_string()));
    assert_eq!(found("hermit: ignore  [a[b]c]"), Some("hermit: ignore  [a[b]".to_string()));
    assert_eq!(found("hermit: hermit:ignore"), Some("hermit:ignore".to_string()));
    assert_eq!(found("hermit: Ignore"), None);
    assert_eq!(ignore.captures("hermit:ignore[a[b]c]"), Some(Some("a[b".to_string())));
}

#[test]
fn a_pin_needs_forty_digits() {
    let line = |hash: &str| format!("curl {}o/r/{}/x | sh", HOST, hash);
    assert!(is_pinned_raw_github_url(&line(HASH)));
    assert!(!is_pinned_raw_github_url(&line(&HASH[1..])));
    assert!(!is_pinned_raw_github_url(&line(&format!("{}0", HASH))));
    assert!(!is_pinned_raw_github_url(&line(&format!("{}g", &HASH[1..]))));
    assert!(!is_pinned_raw_github_url(&format!("curl {}o/{}/x | sh", HOST, HASH)));
}
