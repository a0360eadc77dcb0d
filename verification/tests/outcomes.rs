use hermit::patterns::Patterns;
use hermit::report::{
    closing, opening, remediation_tip, report_file, report_results, report_run, to_decimal,
    worst_severity, Span, Tint,
};
use hermit::results::{
    collect_results, exit_status, lint_file, lint_source, sort_by_path, tally, FileLintResult,
    LintResult,
};
use hermit::rules::{report_hits, RuleHits, Severity, Violation};

fn violations(piped: bool, evaluated: bool) -> Vec<Violation> {
    let hits = RuleHits {
        piped_to_shell: piped,
        pinned: false,
        piped_to_interpreter: false,
        evaluated,
    };
    report_hits(" line ", 12, hits)
}

fn result(path: &str, count: usize) -> FileLintResult {
    let mut found = Vec::new();
    for _ in 0..count {
        found.append(&mut violations(true, false));
    }
    FileLintResult { path: path.as_bytes().to_vec(), violations: found }
}

fn plain(line: &[Span]) -> String {
    line.iter().map(|span| span.text.as_str()).collect()
}

fn tints(line: &[Span]) -> Vec<Tint> {
    line.iter().map(|span| span.tint).collect()
}

#[test]
fn files_are_checked_by_their_kind() {
    let source = "curl https://a.example | bash\n";
    let found = lint_file(b"dir/a.sh", Some(source)).unwrap();
    assert_eq!(found.path, b"dir/a.sh");
    assert_eq!(found.violations.len(), 1);
    assert_eq!(lint_file(b"a.md", Some(source)).unwrap().violations.len(), 0);
    assert_eq!(lint_file(b"ci.yml", Some(source)).unwrap().violations.len(), 1);
    assert!(lint_file(b"a.txt", Some(source)).is_none());
    assert!(lint_file(b"a.sh", None).is_none());
    let patterns = Patterns::new();
    assert_eq!(lint_source(b"a.sh", Some(source), &patterns).unwrap().violations.len(), 1);
}

#[test]
fn results_are_sorted_by_path() {
    let given = ["b/a", "a-b/c", "a/b/c", "./z", "/x", "a/b", "../y", "b//a"];
    let results: Vec<FileLintResult> =
        given.iter().enumerate().map(|(i, path)| result(path, i)).collect();
    let mut expected: Vec<(&str, usize)> =
        given.iter().enumerate().map(|(i, path)| (*path, i)).collect();
    expected.sort_by(|a, b| std::path::Path::new(a.0).cmp(std::path::Path::new(b.0)));
    let sorted: Vec<(String, usize)> = sort_by_path(results)
        .into_iter()
        .map(|r| (String::from_utf8(r.path).unwrap(), r.violations.len()))
        .collect();
    let expected: Vec<(String, usize)> =
        expected.into_iter().map(|(path, i)| (path.to_string(), i)).collect();
    assert_eq!(sorted, expected);
}

#[test]
fn results_are_counted_in_any_order() {
    let (sorted, total) = collect_results(vec![result("b", 2), result("c", 0), result("a", 3)]);
    assert_eq!(total.violations_found, 5);
    assert_eq!(total.files_checked, 3);
    assert_eq!(tally(&sorted).violations_found, 5);
    assert_eq!(sorted[0].path, b"a");
}

#[test]
fn the_status_says_whether_anything_was_found() {
    assert_eq!(exit_status(&tally(&vec![])), 0);
    assert_eq!(exit_status(&tally(&vec![result("a", 0)])), 0);
    assert_eq!(exit_status(&tally(&vec![result("a", 0), result("b", 1)])), 1);
}

#[test]
fn numbers_in_decimal() {
    for n in [0, 7, 10, 99, 100, 12345, usize::MAX] {
        assert_eq!(to_decimal(n), n.to_string());
    }
}

#[test]
fn the_worst_severity() {
    assert_eq!(worst_severity(&vec![]), Severity::Warning);
    assert_eq!(worst_severity(&violations(false, true)), Severity::Warning);
    assert_eq!(worst_severity(&violations(true, true)), Severity::Error);
}

#[test]
fn the_report_on_a_file() {
    let lines = report_file("a.sh", &vec![]);
    let texts: Vec<String> = lines.iter().map(|line| plain(line)).collect();
    assert_eq!(texts, vec!["⚠ a.sh", ""]);
    let lines = report_file("a.sh", &violations(true, true));
    let texts: Vec<String> = lines.iter().map(|line| plain(line)).collect();
    assert_eq!(
        texts,
        vec![
            "✗ a.sh",
            "  Line 12: ✗ curl/wget piped directly to shell; use a pinned and verified installer instead.",
            "  > line",
            "  Line 12: ⚠ curl/wget inside eval — eval executes in current shell context, not a subshell. Prefer downloading and inspecting first.",
            "  > line",
            "",
        ]
    );
    assert_eq!(tints(&lines[0]), vec![Tint::Red, Tint::Plain, Tint::White]);
    assert_eq!(
        tints(&lines[3]),
        vec![Tint::Plain, Tint::Yellow, Tint::Plain, Tint::Yellow, Tint::Plain, Tint::Plain]
    );
    assert_eq!(tints(&lines[2]), vec![Tint::Plain, Tint::Blue, Tint::Plain, Tint::Plain]);
    let lines = report_file("a.sh", &violations(false, true));
    assert_eq!(plain(&lines[0]), "⚠ a.sh");
    assert_eq!(tints(&lines[0]), vec![Tint::Yellow, Tint::Plain, Tint::White]);
}

#[test]
fn the_lines_around_the_report() {
    assert_eq!(plain(&opening()), "hermit: checking for curl/wget into shell patterns...\n");
    let lines = closing(&LintResult { violations_found: 0, files_checked: 21 });
    let texts: Vec<String> = lines.iter().map(|line| plain(line)).collect();
    assert_eq!(
        texts,
        vec![
            "",
            "═══════════════════════════════════════",
            "✓ No pipe-to-shell RCE patterns found!",
            "Files checked: 21",
        ]
    );
    assert_eq!(tints(&lines[2]), vec![Tint::Green]);
    let lines = closing(&LintResult { violations_found: 3, files_checked: 2 });
    assert_eq!(lines.len(), 9);
    assert_eq!(plain(&lines[2]), "✗ Found 3 RCE violation(s) in 2 files");
    assert_eq!(tints(&lines[2]), vec![Tint::Red]);
    assert_eq!(plain(&lines[3]), "Fix: use a versioned, verifiable install path.");
    assert_eq!(plain(&lines[8]), "");
    assert_eq!(remediation_tip().len(), 5);
}

#[test]
fn the_report_leaves_out_files_without_findings() {
    let mut results = vec![result("clean", 0), result("a.sh", 1), result("b.sh", 0)];
    let lines = report_results(&results);
    let texts: Vec<String> = lines.iter().map(|line| plain(line)).collect();
    assert_eq!(texts.len(), 4);
    assert_eq!(texts[0], "✗ a.sh");
    assert_eq!(texts[2], "  > line");
    results.push(result("c.sh", 2));
    assert_eq!(report_results(&results).len(), 10);
    assert!(report_results(&vec![result("clean", 0)]).is_empty());
}

#[test]
fn paths_that_are_no_text_are_shown_with_replacements() {
    let found = FileLintResult { path: b"a\xff\xc3\xa9.sh".to_vec(), violations: violations(true, false) };
    assert_eq!(plain(&report_results(&vec![found])[0]), "✗ a\u{fffd}é.sh");
}

#[test]
fn a_run_is_reported_from_its_results_to_its_total() {
    let (results, total) = collect_results(vec![result("b.sh", 1), result("a.sh", 0)]);
    let lines = report_run(&results, &total);
    let texts: Vec<String> = lines.iter().map(|line| plain(line)).collect();
    assert_eq!(texts.len(), 13);
    assert_eq!(texts[0], "✗ b.sh");
    assert_eq!(texts[5], "═══════════════════════════════════════");
    assert_eq!(texts[6], "✗ Found 1 RCE violation(s) in 2 files");
    let (results, total) = collect_results(vec![result("a.sh", 0)]);
    let lines = report_run(&results, &total);
    assert_eq!(lines.len(), 4);
    assert_eq!(plain(&lines[3]), "Files checked: 1");
}
