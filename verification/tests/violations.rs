use hermit::patterns::{Pattern, Patterns, IGNORE, REMOTE_URL};
use hermit::rules::{
    check_eval_curl, check_pipe_to_interpreter, check_pipe_to_shell, is_pinned_raw_github_url,
    match_rules, only_url, report_eval_curl, report_hits, report_pipe_to_interpreter,
    report_pipe_to_shell, RuleHits, Severity,
};

const PINNED: &str = "https://raw.githubusercontent.com/org/repo/0123456789abcdef0123456789abcdef01234567/install.sh";

#[test]
fn violations_are_complete() {
    let found = check_pipe_to_shell("  curl https://a.example | sh \t", 7);
    assert_eq!(found.len(), 1);
    assert_eq!(found[0].line_num, 7);
    assert_eq!(
        found[0].message,
        "curl/wget piped directly to shell; use a pinned and verified installer instead."
    );
    assert_eq!(found[0].line_content, "curl https://a.example | sh");
    assert_eq!(found[0].rule_id.as_deref(), Some("pipe-to-shell"));
    assert_eq!(found[0].severity, Severity::Error);

    let found = check_pipe_to_interpreter("wget -qO- https://a.example | lua54", 8);
    assert_eq!(found.len(), 1);
    assert_eq!(found[0].line_num, 8);
    assert_eq!(
        found[0].message,
        "curl/wget piped directly to a scripting interpreter; use a pinned and verified installer instead."
    );
    assert_eq!(found[0].severity, Severity::Error);

    let found = check_eval_curl("eval $(wget -qO- https://a.example)", 9);
    assert_eq!(found.len(), 1);
    assert_eq!(found[0].line_num, 9);
    assert_eq!(
        found[0].message,
        "curl/wget inside eval — eval executes in current shell context, not a subshell. Prefer downloading and inspecting first."
    );
    assert_eq!(found[0].severity, Severity::Warning);
}

#[test]
fn patterns_respect_word_boundaries() {
    assert!(check_pipe_to_shell("curly https://a.example | sh", 1).is_empty());
    assert!(check_pipe_to_shell("curl https://a.example | shasum", 1).is_empty());
    assert!(check_pipe_to_interpreter("curl https://a.example | python4", 1).is_empty());
    assert!(check_eval_curl("medieval $(curl https://a.example)", 1).is_empty());
}

#[test]
fn only_a_single_pinned_address_before_the_pipe_is_pinned() {
    assert!(is_pinned_raw_github_url(&format!("curl {} | sh", PINNED)));
    assert!(is_pinned_raw_github_url(&format!("curl {} | sh https://a.example", PINNED)));
    assert!(!is_pinned_raw_github_url(&format!("curl {} {} | sh", PINNED, PINNED)));
    assert!(!is_pinned_raw_github_url("curl | sh"));
    assert!(!is_pinned_raw_github_url("curl https://a.example/x | sh"));
    assert!(!is_pinned_raw_github_url(&format!("curl x | sh {}", PINNED)));
}

#[test]
fn a_pinned_address_is_no_excuse_for_an_interpreter() {
    let line = format!("curl {} | python3", PINNED);
    assert_eq!(check_pipe_to_interpreter(&line, 1).len(), 1);
}

#[test]
fn the_only_address() {
    assert_eq!(only_url(vec![]), None);
    assert_eq!(only_url(vec!["a".to_string()]), Some("a".to_string()));
    assert_eq!(only_url(vec!["a".to_string(), "b".to_string()]), None);
}

#[test]
fn reports_follow_the_hits() {
    assert_eq!(report_pipe_to_shell("x", 1, true, false).len(), 1);
    assert!(report_pipe_to_shell("x", 1, true, true).is_empty());
    assert!(report_pipe_to_shell("x", 1, false, false).is_empty());
    assert_eq!(report_pipe_to_interpreter("x", 1, true).len(), 1);
    assert!(report_pipe_to_interpreter("x", 1, false).is_empty());
    assert_eq!(report_eval_curl("x", 1, true).len(), 1);
    assert!(report_eval_curl("x", 1, false).is_empty());
    let all = RuleHits {
        piped_to_shell: true,
        pinned: false,
        piped_to_interpreter: true,
        evaluated: true,
    };
    let rules: Vec<Option<String>> =
        report_hits("x", 1, all).into_iter().map(|v| v.rule_id).collect();
    assert_eq!(
        rules,
        vec![
            Some("pipe-to-shell".to_string()),
            Some("pipe-to-interpreter".to_string()),
            Some("eval-curl".to_string())
        ]
    );
    assert_eq!(report_hits("x", 1, RuleHits { pinned: true, ..all }).len(), 2);
}

#[test]
fn hits_of_a_line() {
    let patterns = Patterns::new();
    let hits = match_rules(&format!("eval \"$(curl {})\" | bash | perl", PINNED), &patterns);
    assert!(hits.piped_to_shell && hits.pinned && hits.piped_to_interpreter && hits.evaluated);
    let hits = match_rules("echo hello", &patterns);
    assert!(!hits.piped_to_shell && !hits.pinned && !hits.piped_to_interpreter && !hits.evaluated);
}

#[test]
fn patterns_find_and_capture() {
    let ignore = Pattern::compile(IGNORE);
    assert_eq!(
        ignore.find("ü # hermit: ignore[a] hermit: ignore"),
        Some(("ü # ".to_string(), "hermit: ignore[a]".to_string()))
    );
    assert_eq!(ignore.find("nothing"), None);
    assert_eq!(ignore.captures("hermit: ignore[a]"), Some(Some("a".to_string())));
    assert_eq!(ignore.captures("hermit: ignore"), Some(None));
    assert_eq!(ignore.captures("nothing"), None);
    assert!(ignore.is_match("x hermit:ignore"));
    assert!(!ignore.is_match("hermit"));
    let url = Pattern::compile(REMOTE_URL);
    assert_eq!(
        url.find_iter("a http://b 'https://c' |"),
        vec!["http://b".to_string(), "https://c".to_string()]
    );
}

#[test]
fn an_address_that_is_added_before_the_pipe_undoes_a_pin() {
    let command = format!("curl {}", PINNED);
    assert!(is_pinned_raw_github_url(&command));
    for address in ["https://example.com/x", "http://b", "https://https://c"] {
        assert!(!is_pinned_raw_github_url(&format!("{} {}", command, address)));
        assert!(!is_pinned_raw_github_url(&format!("{} {}| sh", command, address)));
        let url = Pattern::compile(REMOTE_URL);
        let found = url.find_iter(&format!("{} {}", command, address));
        assert_eq!(found.len(), 2);
        assert_eq!(found[1], address);
    }
    assert!(is_pinned_raw_github_url(&format!("{}| sh {}", command, PINNED)));
}

#[test]
fn rules_report_only_lines_with_the_words_they_look_for() {
    for line in ["fetch https://a.example | sh", "fetch x | python", "eval \"$(fetch x)\""] {
        assert!(check_pipe_to_shell(line, 1).is_empty());
        assert!(check_pipe_to_interpreter(line, 1).is_empty());
        assert!(check_eval_curl(line, 1).is_empty());
    }
    assert!(check_pipe_to_shell("curl https://a.example; sh", 1).is_empty());
    assert!(check_pipe_to_interpreter("curl https://a.example; python", 1).is_empty());
    assert!(check_eval_curl("\"$(curl https://a.example)\"", 1).is_empty());
}

#[test]
fn directives_in_their_usual_form_match_from_end_to_end() {
    let ignore = Pattern::compile(IGNORE);
    for rule in ["", "x", " a b ", "ü[", "\u{2028}", "hermit: ignore"] {
        let text = format!("hermit: ignore[{}]", rule);
        assert_eq!(ignore.find(&text), Some((String::new(), text.clone())));
        assert_eq!(ignore.captures(&text), Some(Some(rule.to_string())));
    }
    let text = "hermit: ignore".to_string();
    assert_eq!(ignore.find(&text), Some((String::new(), text.clone())));
    assert_eq!(ignore.captures(&text), Some(None));
}
