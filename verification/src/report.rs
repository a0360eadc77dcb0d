//! What the program writes: lines of text with the color of each part.

use vstd::prelude::*;

use crate::path::{call_from_utf8_lossy, lossy_text};
use crate::results::{FileLintResult, LintResult};
use crate::rules::{findings, Finding, Severity, Violation};

verus! {

/// The color of a part of a line.
#[derive(Debug, Clone, Copy, PartialEq, Eq, Structural)]
pub enum Tint {
    Plain,
    Blue,
    Green,
    Red,
    White,
    Yellow,
}

/// A part of a line.
#[derive(Debug)]
pub struct Span {
    pub text: String,
    pub tint: Tint,
}

/// A `Span` with its text as characters.
pub struct Tinted {
    pub text: Seq<char>,
    pub tint: Tint,
}

impl View for Span {
    type V = Tinted;

    open spec fn view(&self) -> Tinted {
        Tinted { text: self.text@, tint: self.tint }
    }
}

/// The parts of a line.
pub open spec fn tinted_line(line: Seq<Span>) -> Seq<Tinted> {
    line.map_values(|span: Span| span@)
}

/// The lines of a report.
pub open spec fn tinted_lines(lines: Seq<Vec<Span>>) -> Seq<Seq<Tinted>> {
    lines.map_values(|line: Vec<Span>| tinted_line(line@))
}

/// A digit as a character.
pub open spec fn digit(d: nat) -> char {
    (48 + d) as char
}

/// A number in decimal digits.
pub open spec fn decimal(n: nat) -> Seq<char>
    decreases n,
{
    if n < 10 {
        seq![digit(n)]
    } else {
        decimal(n / 10).push(digit(n % 10))
    }
}

/// The mark for a severity.
pub open spec fn severity_mark(severity: Severity) -> Tinted {
    match severity {
        Severity::Error => Tinted { text: "✗"@, tint: Tint::Red },
        Severity::Warning => Tinted { text: "⚠"@, tint: Tint::Yellow },
    }
}

/// The worst severity among some findings.
pub open spec fn worst(all: Seq<Finding>) -> Severity {
    if exists|i: int| 0 <= i < all.len() && (#[trigger] all[i]).severity == Severity::Error {
        Severity::Error
    } else {
        Severity::Warning
    }
}

/// A part of a line without a color.
pub open spec fn plain(text: Seq<char>) -> Tinted {
    Tinted { text, tint: Tint::Plain }
}

/// The first line about a file: the mark for its worst finding, and its path.
pub open spec fn file_line(path: Seq<char>, all: Seq<Finding>) -> Seq<Tinted> {
    seq![severity_mark(worst(all)), plain(" "@), Tinted { text: path, tint: Tint::White }]
}

/// The line that says where a finding is and what it means.
pub open spec fn message_line(f: Finding) -> Seq<Tinted> {
    seq![
        plain("  "@),
        Tinted { text: "Line "@ + decimal(f.line_num as nat) + ":"@, tint: Tint::Yellow },
        plain(" "@),
        severity_mark(f.severity),
        plain(" "@),
        plain(f.message),
    ]
}

/// The line that shows the line of a finding.
pub open spec fn content_line(f: Finding) -> Seq<Tinted> {
    seq![
        plain("  "@),
        Tinted { text: ">"@, tint: Tint::Blue },
        plain(" "@),
        plain(f.line_content),
    ]
}

/// The lines about some findings.
pub open spec fn finding_lines(all: Seq<Finding>) -> Seq<Seq<Tinted>>
    decreases all.len(),
{
    if all.len() == 0 {
        seq![]
    } else {
        finding_lines(all.drop_last()) + seq![message_line(all.last()), content_line(all.last())]
    }
}

/// The report on a file: a line about the file, the lines about its findings, and an empty
/// line.
pub open spec fn file_report(path: Seq<char>, all: Seq<Finding>) -> Seq<Seq<Tinted>> {
    seq![file_line(path, all)] + finding_lines(all) + seq![Seq::<Tinted>::empty()]
}

/// The reports on the files in which something was found, in the order of the results.
pub open spec fn results_report(results: Seq<FileLintResult>) -> Seq<Seq<Tinted>>
    decreases results.len(),
{
    if results.len() == 0 {
        seq![]
    } else {
        let last = results.last();
        results_report(results.drop_last()) + if last.violations@.len() == 0 {
            seq![]
        } else {
            file_report(lossy_text(last.path@), findings(last.violations@))
        }
    }
}

/// The text of the first line.
pub const OPENING: &'static str = "hermit: checking for curl/wget into shell patterns...\n";

/// The line between the findings and their number.
pub const RULE_OFF: &'static str = "═══════════════════════════════════════";

/// What is said where nothing was found.
pub const NOTHING_FOUND: &'static str = "✓ No pipe-to-shell RCE patterns found!";

/// How to mend what was found.
pub const TIP: &'static str = "Fix: use a versioned, verifiable install path.";

/// The advice on package managers.
pub const TIP_TOOLCHAIN: &'static str =
    "  - Prefer the system package manager or language toolchain with an explicit version.";

/// The advice on releases.
pub const TIP_RELEASE: &'static str =
    "  - In CI/docs, download a fixed GitHub release asset or commit-pinned raw file, then verify checksum/signature before executing.";

/// Examples of the advice.
pub const TIP_EXAMPLES: &'static str =
    "  - Examples: rustup-init from a fixed rustup archive, Foundry/Tilt release tarballs, or brew/apt/asdf/nix pins.";

/// The advice on pins in environment variables.
pub const TIP_ENVIRONMENT: &'static str =
    "  - Env pins like VERSION=v1.0 bash only help if the remote script itself is trusted and immutable.";

/// A line of one color.
pub open spec fn whole_line(text: Seq<char>, tint: Tint) -> Seq<Tinted> {
    seq![Tinted { text, tint }]
}

/// The lines that say how to mend what was found.
pub open spec fn tip_lines() -> Seq<Seq<Tinted>> {
    seq![
        whole_line(TIP@, Tint::Blue),
        whole_line(TIP_TOOLCHAIN@, Tint::Blue),
        whole_line(TIP_RELEASE@, Tint::Blue),
        whole_line(TIP_EXAMPLES@, Tint::Blue),
        whole_line(TIP_ENVIRONMENT@, Tint::Blue),
    ]
}

/// The lines that close the report.
pub open spec fn closing_lines(total: LintResult) -> Seq<Seq<Tinted>> {
    let head = seq![Seq::<Tinted>::empty(), whole_line(RULE_OFF@, Tint::Blue)];
    if total.violations_found == 0 {
        head + seq![
            whole_line(NOTHING_FOUND@, Tint::Green),
            whole_line("Files checked: "@ + decimal(total.files_checked as nat), Tint::Blue),
        ]
    } else {
        head + seq![
            whole_line(
                "✗ Found "@ + decimal(total.violations_found as nat)
                    + " RCE violation(s) in "@ + decimal(total.files_checked as nat) + " files"@,
                Tint::Red,
            ),
        ] + tip_lines() + seq![Seq::<Tinted>::empty()]
    }
}

/// All that is printed behind the opening line, given the results and their total.
pub open spec fn run_report(results: Seq<FileLintResult>, total: LintResult) -> Seq<Seq<Tinted>> {
    results_report(results) + closing_lines(total)
}

/// A number in decimal digits.
pub fn to_decimal(n: usize) -> (s: String)
    ensures
        s@ == decimal(n as nat),
    decreases n,
{
    let mut s = if n < 10 {
        String::new()
    } else {
        to_decimal(n / 10)
    };
    let d: u8 = (n % 10) as u8;
    s.push((48 + d) as char);
    assert(n < 10 ==> s@ =~= decimal(n as nat));
    s
}

/// A part of a line.
fn span(text: &str, tint: Tint) -> (s: Span)
    ensures
        s@ == (Tinted { text: text@, tint }),
{
    Span { text: text.to_string(), tint }
}

/// The mark for a severity.
fn mark(severity: Severity) -> (s: Span)
    ensures
        s@ == severity_mark(severity),
{
    match severity {
        Severity::Error => span("✗", Tint::Red),
        Severity::Warning => span("⚠", Tint::Yellow),
    }
}

/// The worst severity among some violations.
pub fn worst_severity(violations: &Vec<Violation>) -> (severity: Severity)
    ensures
        severity == worst(findings(violations@)),
{
    let ghost all = findings(violations@);
    for i in 0..violations.len()
        invariant
            all == findings(violations@),
            forall|j: int| 0 <= j < i ==> (#[trigger] all[j]).severity != Severity::Error,
    {
        if violations[i].severity == Severity::Error {
            assert(all[i as int].severity == Severity::Error);
            return Severity::Error;
        }
    }
    Severity::Warning
}

/// The lines about a violation.
fn push_violation(lines: &mut Vec<Vec<Span>>, violation: &Violation)
    ensures
        tinted_lines(final(lines)@) == tinted_lines(old(lines)@) + seq![
            message_line(violation@),
            content_line(violation@),
        ],
{
    let ghost before = lines@;
    let place = String::new().concat("Line ").concat(
        to_decimal(violation.line_num).as_str(),
    ).concat(":");
    assert(place@ =~= "Line "@ + decimal(violation.line_num as nat) + ":"@);
    let mut message: Vec<Span> = Vec::new();
    message.push(span("  ", Tint::Plain));
    message.push(Span { text: place, tint: Tint::Yellow });
    message.push(span(" ", Tint::Plain));
    message.push(mark(violation.severity));
    message.push(span(" ", Tint::Plain));
    message.push(span(violation.message.as_str(), Tint::Plain));
    let mut content: Vec<Span> = Vec::new();
    content.push(span("  ", Tint::Plain));
    content.push(span(">", Tint::Blue));
    content.push(span(" ", Tint::Plain));
    content.push(span(violation.line_content.as_str(), Tint::Plain));
    assert(tinted_line(message@) =~= message_line(violation@));
    assert(tinted_line(content@) =~= content_line(violation@));
    lines.push(message);
    lines.push(content);
    assert(tinted_lines(lines@) =~= tinted_lines(before) + seq![
        message_line(violation@),
        content_line(violation@),
    ]);
}

/// The report on a file whose path is written as `path`.
pub fn report_file(path: &str, violations: &Vec<Violation>) -> (lines: Vec<Vec<Span>>)
    ensures
        tinted_lines(lines@) == file_report(path@, findings(violations@)),
{
    let ghost all = findings(violations@);
    let mut lines: Vec<Vec<Span>> = Vec::new();
    let mut first: Vec<Span> = Vec::new();
    first.push(mark(worst_severity(violations)));
    first.push(span(" ", Tint::Plain));
    first.push(span(path, Tint::White));
    assert(tinted_line(first@) =~= file_line(path@, all));
    lines.push(first);
    assert(all.take(0) =~= seq![]);
    assert(tinted_lines(lines@) =~= seq![file_line(path@, all)] + finding_lines(all.take(0)));
    for i in 0..violations.len()
        invariant
            all == findings(violations@),
            tinted_lines(lines@) == seq![file_line(path@, all)] + finding_lines(
                all.take(i as int),
            ),
    {
        push_violation(&mut lines, &violations[i]);
        proof {
            assert(all.take(i + 1).drop_last() =~= all.take(i as int));
            assert(tinted_lines(lines@) =~= seq![file_line(path@, all)] + finding_lines(
                all.take(i + 1),
            ));
        }
    }
    let ghost before = lines@;
    assert(all.take(violations@.len() as int) =~= all);
    let empty: Vec<Span> = Vec::new();
    assert(tinted_line(empty@) =~= Seq::<Tinted>::empty());
    lines.push(empty);
    assert(tinted_lines(lines@) =~= tinted_lines(before).push(Seq::<Tinted>::empty()));
    assert(tinted_lines(lines@) =~= file_report(path@, all));
    lines
}

/// The reports on the files in which something was found, in the order of the results.
pub fn report_results(results: &Vec<FileLintResult>) -> (lines: Vec<Vec<Span>>)
    ensures
        tinted_lines(lines@) == results_report(results@),
{
    let mut lines: Vec<Vec<Span>> = Vec::new();
    proof {
        assert(results@.take(0) =~= seq![]);
        assert(tinted_lines(lines@) =~= seq![]);
    }
    for i in 0..results.len()
        invariant
            tinted_lines(lines@) == results_report(results@.take(i as int)),
    {
        let result = &results[i];
        let ghost before = lines@;
        proof {
            assert(results@.take(i + 1).drop_last() =~= results@.take(i as int));
            assert(tinted_lines(before) + seq![] =~= tinted_lines(before));
        }
        if result.violations.len() > 0 {
            let path = call_from_utf8_lossy(result.path.as_slice());
            let mut new = report_file(path.as_str(), &result.violations);
            let ghost more = new@;
            lines.append(&mut new);
            assert(tinted_lines(before + more) =~= tinted_lines(before) + tinted_lines(more));
        }
    }
    assert(results@.take(results@.len() as int) =~= results@);
    lines
}

/// A line of one color.
fn one_color(text: &str, tint: Tint) -> (line: Vec<Span>)
    ensures
        tinted_line(line@) == whole_line(text@, tint),
{
    let mut line: Vec<Span> = Vec::new();
    line.push(span(text, tint));
    assert(tinted_line(line@) =~= whole_line(text@, tint));
    line
}

/// The line that opens the report.
pub fn opening() -> (line: Vec<Span>)
    ensures
        tinted_line(line@) == whole_line(OPENING@, Tint::Blue),
{
    one_color(OPENING, Tint::Blue)
}

/// The lines that say how to mend what was found.
pub fn remediation_tip() -> (lines: Vec<Vec<Span>>)
    ensures
        tinted_lines(lines@) == tip_lines(),
{
    let mut lines: Vec<Vec<Span>> = Vec::new();
    lines.push(one_color(TIP, Tint::Blue));
    lines.push(one_color(TIP_TOOLCHAIN, Tint::Blue));
    lines.push(one_color(TIP_RELEASE, Tint::Blue));
    lines.push(one_color(TIP_EXAMPLES, Tint::Blue));
    lines.push(one_color(TIP_ENVIRONMENT, Tint::Blue));
    assert(tinted_lines(lines@) =~= tip_lines());
    lines
}

/// The lines that close the report.
pub fn closing(total: &LintResult) -> (lines: Vec<Vec<Span>>)
    ensures
        tinted_lines(lines@) == closing_lines(*total),
{
    let mut lines: Vec<Vec<Span>> = Vec::new();
    let empty: Vec<Span> = Vec::new();
    assert(tinted_line(empty@) =~= Seq::<Tinted>::empty());
    lines.push(empty);
    lines.push(one_color(RULE_OFF, Tint::Blue));
    let files = to_decimal(total.files_checked);
    if total.violations_found == 0 {
        let checked = String::new().concat("Files checked: ").concat(files.as_str());
        assert(checked@ =~= "Files checked: "@ + decimal(total.files_checked as nat));
        lines.push(one_color(NOTHING_FOUND, Tint::Green));
        lines.push(one_color(checked.as_str(), Tint::Blue));
    } else {
        let found = String::new().concat("✗ Found ").concat(
            to_decimal(total.violations_found).as_str(),
        ).concat(" RCE violation(s) in ").concat(files.as_str()).concat(" files");
        assert(found@ =~= "✗ Found "@ + decimal(total.violations_found as nat)
            + " RCE violation(s) in "@ + decimal(total.files_checked as nat) + " files"@);
        lines.push(one_color(found.as_str(), Tint::Red));
        let ghost before = lines@;
        let mut tip = remediation_tip();
        let ghost tips = tip@;
        lines.append(&mut tip);
        assert(tinted_lines(before + tips) =~= tinted_lines(before) + tinted_lines(tips));
        let ghost before_last = lines@;
        let last: Vec<Span> = Vec::new();
        assert(tinted_line(last@) =~= Seq::<Tinted>::empty());
        lines.push(last);
        assert(tinted_lines(lines@) =~= tinted_lines(before_last).push(Seq::<Tinted>::empty()));
    }
    assert(tinted_lines(lines@) =~= closing_lines(*total));
    lines
}

/// All that is printed behind the opening line.
pub fn report_run(results: &Vec<FileLintResult>, total: &LintResult) -> (lines: Vec<Vec<Span>>)
    ensures
        tinted_lines(lines@) == run_report(results@, *total),
{
    let mut lines = report_results(results);
    let mut last = closing(total);
    let ghost parts = (lines@, last@);
    lines.append(&mut last);
    assert(tinted_lines(parts.0 + parts.1) =~= tinted_lines(parts.0) + tinted_lines(parts.1));
    lines
}

} // verus!
