//! What the report promises, in terms of the text that is printed.

use vstd::prelude::*;

use crate::path::lossy_text;
use crate::report::{
    closing_lines, content_line, decimal, file_line, file_report, finding_lines,
    message_line, results_report, run_report, severity_mark, tinted_line, whole_line, worst, Span,
    Tint, Tinted, OPENING,
};
use crate::results::{status_of, tally_of, total_violations, FileLintResult, LintResult};
use crate::rules::{findings, Finding, Severity, Violation};

verus! {

/// The text of a line, whatever its colors.
pub open spec fn flat(line: Seq<Tinted>) -> Seq<char>
    decreases line.len(),
{
    if line.len() == 0 {
        seq![]
    } else {
        flat(line.drop_last()) + line.last().text
    }
}

/// The colors of a line.
pub open spec fn colors(line: Seq<Tinted>) -> Seq<Tint> {
    line.map_values(|part: Tinted| part.tint)
}

/// The number that decimal digits stand for.
pub open spec fn number(digits: Seq<char>) -> int
    decreases digits.len(),
{
    if digits.len() == 0 {
        0
    } else {
        10 * number(digits.drop_last()) + (digits.last() as int - 48)
    }
}

/// A number is written in decimal digits that stand for it, without a zero in front.
pub proof fn lemma_decimal(n: nat)
    ensures
        number(decimal(n)) == n,
        decimal(n).len() > 0,
        decimal(n).len() > 1 ==> decimal(n).first() != '0',
        forall|i: int| 0 <= i < decimal(n).len() ==> '0' <= #[trigger] decimal(n)[i] <= '9',
    decreases n,
{
    let digits = decimal(n);
    reveal_with_fuel(number, 2);
    if n < 10 {
        assert(digits.drop_last() =~= Seq::<char>::empty());
        assert(digits.last() as int == 48 + n);
    } else {
        lemma_decimal(n / 10);
        let front = decimal(n / 10);
        assert(digits.drop_last() =~= front);
        assert(digits.last() as int == 48 + n % 10);
        assert(digits.first() == front.first());
        if n / 10 < 10 {
            assert(front.first() as int == 48 + n / 10);
        } else {
            lemma_decimal((n / 10) / 10);
        }
        assert forall|i: int| 0 <= i < digits.len() implies '0' <= #[trigger] digits[i] <= '9' by {
            if i < front.len() {
                assert(digits[i] == front[i]);
            }
        }
    }
}

/// The mark for errors is a red cross, and that for warnings a yellow sign.
pub proof fn lemma_marks()
    ensures
        severity_mark(Severity::Error) == (Tinted { text: "✗"@, tint: Tint::Red }),
        severity_mark(Severity::Warning) == (Tinted { text: "⚠"@, tint: Tint::Yellow }),
{
}

/// A file is marked by its worst finding: as an error where it has an error, else as a warning.
pub proof fn lemma_worst(all: Seq<Finding>, i: int)
    ensures
        0 <= i < all.len() && all[i].severity == Severity::Error ==> worst(all) == Severity::Error,
        (forall|j: int| 0 <= j < all.len() ==> (#[trigger] all[j]).severity == Severity::Warning)
            ==> worst(all) == Severity::Warning,
{
}

/// The first line about a file shows the mark of its worst finding, and its path in white.
pub proof fn lemma_file_line(path: Seq<char>, all: Seq<Finding>)
    ensures
        flat(file_line(path, all)) == severity_mark(worst(all)).text + " "@ + path,
        colors(file_line(path, all)) == seq![
            severity_mark(worst(all)).tint,
            Tint::Plain,
            Tint::White,
        ],
{
    let line = file_line(path, all);
    reveal_with_fuel(flat, 4);
    assert(line.drop_last().drop_last().drop_last() =~= Seq::<Tinted>::empty());
    assert(flat(line) =~= severity_mark(worst(all)).text + " "@ + path);
    assert(colors(line) =~= seq![severity_mark(worst(all)).tint, Tint::Plain, Tint::White]);
}

/// A finding is shown with the number of its line in yellow, its mark and its message, and
/// then with the text of its line.
pub proof fn lemma_finding_lines(f: Finding)
    ensures
        flat(message_line(f)) == "  "@ + ("Line "@ + decimal(f.line_num as nat) + ":"@) + " "@
            + severity_mark(f.severity).text + " "@ + f.message,
        colors(message_line(f)) == seq![
            Tint::Plain,
            Tint::Yellow,
            Tint::Plain,
            severity_mark(f.severity).tint,
            Tint::Plain,
            Tint::Plain,
        ],
        flat(content_line(f)) == "  "@ + ">"@ + " "@ + f.line_content,
        colors(content_line(f)) == seq![Tint::Plain, Tint::Blue, Tint::Plain, Tint::Plain],
{
    reveal_with_fuel(flat, 7);
    let line = message_line(f);
    assert(line.drop_last().drop_last().drop_last().drop_last().drop_last().drop_last()
        =~= Seq::<Tinted>::empty());
    assert(flat(line) =~= "  "@ + ("Line "@ + decimal(f.line_num as nat) + ":"@) + " "@
        + severity_mark(f.severity).text + " "@ + f.message);
    let content = content_line(f);
    assert(content.drop_last().drop_last().drop_last().drop_last() =~= Seq::<Tinted>::empty());
    assert(flat(content) =~= "  "@ + ">"@ + " "@ + f.line_content);
    assert(colors(line) =~= seq![
        Tint::Plain,
        Tint::Yellow,
        Tint::Plain,
        severity_mark(f.severity).tint,
        Tint::Plain,
        Tint::Plain,
    ]);
    assert(colors(content) =~= seq![Tint::Plain, Tint::Blue, Tint::Plain, Tint::Plain]);
}

proof fn lemma_two_lines_each(all: Seq<Finding>)
    ensures
        finding_lines(all).len() == 2 * all.len(),
        forall|i: int|
            0 <= i < all.len() ==> finding_lines(all)[2 * i] == message_line(#[trigger] all[i])
                && finding_lines(all)[2 * i + 1] == content_line(all[i]),
    decreases all.len(),
{
    if all.len() > 0 {
        let front = all.drop_last();
        lemma_two_lines_each(front);
        assert forall|i: int| 0 <= i < all.len() implies finding_lines(all)[2 * i] == message_line(
            #[trigger] all[i],
        ) && finding_lines(all)[2 * i + 1] == content_line(all[i]) by {
            if i < front.len() {
                assert(front[i] == all[i]);
            }
        }
    }
}

/// The report on a file is its first line, two lines for each finding, in their order, and an
/// empty line.
pub proof fn lemma_file_report(path: Seq<char>, all: Seq<Finding>)
    ensures
        file_report(path, all).len() == 2 * all.len() + 2,
        file_report(path, all)[0] == file_line(path, all),
        forall|i: int|
            0 <= i < all.len() ==> file_report(path, all)[2 * i + 1] == message_line(
                #[trigger] all[i],
            ) && file_report(path, all)[2 * i + 2] == content_line(all[i]),
        file_report(path, all).last().len() == 0,
{
    lemma_two_lines_each(all);
    let lines = file_report(path, all);
    assert forall|i: int| 0 <= i < all.len() implies lines[2 * i + 1] == message_line(
        #[trigger] all[i],
    ) && lines[2 * i + 2] == content_line(all[i]) by {
        assert(lines[2 * i + 1] == finding_lines(all)[2 * i]);
        assert(lines[2 * i + 2] == finding_lines(all)[2 * i + 1]);
    }
}

/// The results are reported one after the other. Nothing is said of a file without findings.
pub proof fn lemma_results_report(results: Seq<FileLintResult>, more: Seq<FileLintResult>)
    ensures
        results_report(results + more) == results_report(results) + results_report(more),
        results.len() == 1 ==> results_report(results) == if results[0].violations@.len() == 0 {
            seq![]
        } else {
            file_report(lossy_text(results[0].path@), findings(results[0].violations@))
        },
        results.len() == 0 ==> results_report(results) == Seq::<Seq<Tinted>>::empty(),
    decreases more.len(),
{
    let both = results + more;
    if more.len() == 0 {
        assert(both =~= results);
        assert(results_report(results) + results_report(more) =~= results_report(results));
    } else {
        let front = more.drop_last();
        lemma_results_report(results, front);
        assert(both.drop_last() =~= results + front);
        assert(results_report(both) =~= results_report(results) + results_report(more));
    }
    if results.len() == 1 {
        assert(results.drop_last() =~= Seq::<FileLintResult>::empty());
        assert(results_report(results.drop_last()) =~= Seq::<Seq<Tinted>>::empty());
        assert(results_report(results) =~= if results[0].violations@.len() == 0 {
            seq![]
        } else {
            file_report(lossy_text(results[0].path@), findings(results[0].violations@))
        });
    }
}

/// The text and the color of a line of one color.
pub open spec fn all_in(line: Seq<Tinted>, text: Seq<char>, tint: Tint) -> bool {
    flat(line) == text && colors(line) == seq![tint]
}

proof fn lemma_one_color(text: Seq<char>, tint: Tint)
    ensures
        all_in(whole_line(text, tint), text, tint),
{
    let line = whole_line(text, tint);
    reveal_with_fuel(flat, 2);
    assert(line.drop_last() =~= Seq::<Tinted>::empty());
    assert(flat(line) =~= text);
    assert(colors(line) =~= seq![tint]);
}

/// The report ends with an empty line and a rule. Where nothing was found, it says so in green
/// and gives the number of files.
pub proof fn lemma_closing_of_nothing(results: Seq<FileLintResult>, total: LintResult)
    requires
        total.violations_found == 0,
    ensures
        ({
            let lines = closing_lines(total);
            &&& run_report(results, total) == results_report(results) + lines
            &&& lines.len() == 4
            &&& lines[0].len() == 0
            &&& all_in(lines[1], "═══════════════════════════════════════"@, Tint::Blue)
            &&& all_in(lines[2], "✓ No pipe-to-shell RCE patterns found!"@, Tint::Green)
            &&& all_in(
                lines[3],
                "Files checked: "@ + decimal(total.files_checked as nat),
                Tint::Blue,
            )
        }),
{
    lemma_one_color("═══════════════════════════════════════"@, Tint::Blue);
    lemma_one_color("✓ No pipe-to-shell RCE patterns found!"@, Tint::Green);
    lemma_one_color("Files checked: "@ + decimal(total.files_checked as nat), Tint::Blue);
}

/// Where something was found, the report ends with the numbers of violations and files in red,
/// advice in blue, and an empty line.
pub proof fn lemma_closing_of_findings(results: Seq<FileLintResult>, total: LintResult)
    requires
        total.violations_found > 0,
    ensures
        ({
            let lines = closing_lines(total);
            &&& run_report(results, total) == results_report(results) + lines
            &&& lines.len() == 9
            &&& lines[0].len() == 0
            &&& all_in(lines[1], "═══════════════════════════════════════"@, Tint::Blue)
            &&& all_in(
                lines[2],
                "✗ Found "@ + decimal(total.violations_found as nat) + " RCE violation(s) in "@
                    + decimal(total.files_checked as nat) + " files"@,
                Tint::Red,
            )
            &&& all_in(lines[3], "Fix: use a versioned, verifiable install path."@, Tint::Blue)
            &&& all_in(
                lines[4],
                "  - Prefer the system package manager or language toolchain with an explicit version."@,
                Tint::Blue,
            )
            &&& all_in(
                lines[5],
                "  - In CI/docs, download a fixed GitHub release asset or commit-pinned raw file, then verify checksum/signature before executing."@,
                Tint::Blue,
            )
            &&& all_in(
                lines[6],
                "  - Examples: rustup-init from a fixed rustup archive, Foundry/Tilt release tarballs, or brew/apt/asdf/nix pins."@,
                Tint::Blue,
            )
            &&& all_in(
                lines[7],
                "  - Env pins like VERSION=v1.0 bash only help if the remote script itself is trusted and immutable."@,
                Tint::Blue,
            )
            &&& lines[8].len() == 0
        }),
{
    lemma_one_color("═══════════════════════════════════════"@, Tint::Blue);
    lemma_one_color(
        "✗ Found "@ + decimal(total.violations_found as nat) + " RCE violation(s) in "@ + decimal(
            total.files_checked as nat,
        ) + " files"@,
        Tint::Red,
    );
    lemma_one_color("Fix: use a versioned, verifiable install path."@, Tint::Blue);
    lemma_one_color(
        "  - Prefer the system package manager or language toolchain with an explicit version."@,
        Tint::Blue,
    );
    lemma_one_color(
        "  - In CI/docs, download a fixed GitHub release asset or commit-pinned raw file, then verify checksum/signature before executing."@,
        Tint::Blue,
    );
    lemma_one_color(
        "  - Examples: rustup-init from a fixed rustup archive, Foundry/Tilt release tarballs, or brew/apt/asdf/nix pins."@,
        Tint::Blue,
    );
    lemma_one_color(
        "  - Env pins like VERSION=v1.0 bash only help if the remote script itself is trusted and immutable."@,
        Tint::Blue,
    );
}

/// Violations are counted result by result, and so are files. The count of violations stops at
/// the limit of its type and nowhere else.
pub proof fn lemma_counts(results: Seq<FileLintResult>, more: Seq<FileLintResult>)
    ensures
        total_violations(results + more) == total_violations(results) + total_violations(more),
        results.len() == 1 ==> total_violations(results) == results[0].violations@.len(),
        results.len() == 0 ==> total_violations(results) == 0,
        total_violations(results) <= usize::MAX ==> tally_of(results).violations_found
            == total_violations(results),
        total_violations(results) > usize::MAX ==> tally_of(results).violations_found
            == usize::MAX,
        results.len() <= usize::MAX ==> tally_of(results).files_checked == results.len(),
    decreases more.len(),
{
    let both = results + more;
    if more.len() == 0 {
        assert(both =~= results);
    } else {
        lemma_counts(results, more.drop_last());
        assert(both.drop_last() =~= results + more.drop_last());
    }
    if results.len() == 1 {
        assert(results.drop_last() =~= Seq::<FileLintResult>::empty());
        assert(total_violations(results.drop_last()) == 0);
    }
}

/// The status is 1 where violations were found, whatever their number, and 0 otherwise.
pub proof fn lemma_status(total: LintResult)
    ensures
        total.violations_found > 0 ==> status_of(total) == 1,
        total.violations_found == 0 ==> status_of(total) == 0,
{
}

/// The report opens with a line in blue that says what is looked for.
pub proof fn lemma_opening()
    ensures
        all_in(
            whole_line(OPENING@, Tint::Blue),
            "hermit: checking for curl/wget into shell patterns...\n"@,
            Tint::Blue,
        ),
{
    lemma_one_color(OPENING@, Tint::Blue);
}

/// Violations and the parts of a line are seen as what they hold.
pub proof fn lemma_views(violations: Seq<Violation>, line: Seq<Span>, i: int)
    ensures
        findings(violations).len() == violations.len(),
        0 <= i < violations.len() ==> {
            let (v, f) = (violations[i], findings(violations)[i]);
            &&& f.line_num == v.line_num
            &&& f.message == v.message@
            &&& f.line_content == v.line_content@
            &&& f.severity == v.severity
            &&& v.rule_id is None ==> f.rule_id is None
            &&& v.rule_id matches Some(rule) ==> f.rule_id == Some(rule@)
        },
        tinted_line(line).len() == line.len(),
        0 <= i < line.len() ==> tinted_line(line)[i].text == line[i].text@ && tinted_line(
            line,
        )[i].tint == line[i].tint,
{
}

} // verus!
