//! What the check of each file found, and the tally over all files.

use vstd::prelude::*;
use vstd::slice::slice_to_vec;

use crate::files::{comment_style, comment_style_for_file, extension_named, has_extension};
use crate::path::{
    are_paths_ordered, component_views, components, lemma_path_order_total,
    lemma_path_order_transitive, path_ordered, split_components, Component, PathComponent,
};
use crate::patterns::Patterns;
use crate::rules::{findings, Finding, Violation};
use crate::scan::{check_content, file_findings, LintContext};

verus! {

/// What was found over all files.
#[derive(Debug, Clone, Copy)]
pub struct LintResult {
    pub violations_found: usize,
    pub files_checked: usize,
}

/// What was found in a file.
#[derive(Debug)]
pub struct FileLintResult {
    pub path: Vec<u8>,
    pub violations: Vec<Violation>,
}

/// The components of the path of a result.
pub open spec fn result_path(result: FileLintResult) -> Seq<Component> {
    components(result.path@)
}

/// The results for one path, in their order.
pub open spec fn results_for(results: Seq<FileLintResult>, path: Seq<Component>) -> Seq<
    FileLintResult,
> {
    results.filter(|result: FileLintResult| result_path(result) == path)
}

/// The results stand in the order of their paths.
pub open spec fn in_path_order(results: Seq<FileLintResult>) -> bool {
    forall|i: int, j: int|
        0 <= i <= j < results.len() ==> path_ordered(
            result_path(#[trigger] results[i]),
            result_path(#[trigger] results[j]),
        )
}

/// The number of violations in some results.
pub open spec fn total_violations(results: Seq<FileLintResult>) -> nat
    decreases results.len(),
{
    if results.len() == 0 {
        0
    } else {
        total_violations(results.drop_last()) + results.last().violations@.len()
    }
}

/// The files and violations of some results, counted. The count of violations stops at the
/// limit of its type.
pub open spec fn tally_of(results: Seq<FileLintResult>) -> LintResult {
    LintResult {
        violations_found: if total_violations(results) <= usize::MAX {
            total_violations(results) as usize
        } else {
            usize::MAX
        },
        files_checked: results.len() as usize,
    }
}

/// The status that the program exits with: 0 where nothing was found, 1 otherwise.
pub open spec fn status_of(total: LintResult) -> int {
    if total.violations_found == 0 {
        0
    } else {
        1
    }
}

/// What is reported of a file with some text in it: nothing is known of a file of another kind.
pub open spec fn lint_findings(path: Seq<u8>, text: Seq<char>) -> Option<Seq<Finding>> {
    match comment_style(path) {
        Some((prefix, suffix)) => Some(
            file_findings(text, extension_named(path, "md"@), prefix, suffix),
        ),
        None => None,
    }
}

/// Checks a file's source with patterns that are compiled already. There is no result for a
/// file that could not be read as text, nor for one of another kind.
pub fn lint_source(path: &[u8], source: Option<&str>, patterns: &Patterns) -> (result: Option<
    FileLintResult,
>)
    ensures
        match result {
            Some(r) => {
                &&& r.path@ == path@
                &&& source matches Some(text)
                &&& comment_style(path@) matches Some((prefix, suffix))
                &&& findings(r.violations@) == file_findings(
                    text@,
                    extension_named(path@, "md"@),
                    prefix,
                    suffix,
                )
            },
            None => source is None || comment_style(path@) is None,
        },
        source matches Some(text) ==> match result {
            Some(r) => lint_findings(path@, text@) == Some(findings(r.violations@)),
            None => lint_findings(path@, text@) is None,
        },
{
    let text = match source {
        Some(text) => text,
        None => return None,
    };
    let style = match comment_style_for_file(path) {
        Some(style) => style,
        None => return None,
    };
    let context = LintContext { is_markdown: has_extension(path, "md") };
    Some(
        FileLintResult {
            path: slice_to_vec(path),
            violations: check_content(text, &context, &style, patterns),
        },
    )
}

/// Checks a file's source. There is no result for a file that could not be read as text,
/// nor for one of another kind.
pub fn lint_file(path: &[u8], source: Option<&str>) -> (result: Option<FileLintResult>)
    ensures
        match result {
            Some(r) => {
                &&& r.path@ == path@
                &&& source matches Some(text)
                &&& comment_style(path@) matches Some((prefix, suffix))
                &&& findings(r.violations@) == file_findings(
                    text@,
                    extension_named(path@, "md"@),
                    prefix,
                    suffix,
                )
            },
            None => source is None || comment_style(path@) is None,
        },
        source matches Some(text) ==> match result {
            Some(r) => lint_findings(path@, text@) == Some(findings(r.violations@)),
            None => lint_findings(path@, text@) is None,
        },
{
    lint_source(path, source, &Patterns::new())
}

/// The first of some paths in order that another comes before or is.
fn find_place(keys: &Vec<Vec<PathComponent>>, key: &Vec<PathComponent>) -> (place: usize)
    requires
        forall|i: int, j: int|
            0 <= i <= j < keys@.len() ==> path_ordered(
                component_views(#[trigger] keys@[i]@),
                component_views(#[trigger] keys@[j]@),
            ),
    ensures
        place <= keys@.len(),
        forall|i: int|
            0 <= i < place ==> !path_ordered(
                component_views(key@),
                component_views(#[trigger] keys@[i]@),
            ),
        forall|i: int|
            place <= i < keys@.len() ==> path_ordered(
                component_views(key@),
                component_views(#[trigger] keys@[i]@),
            ),
{
    let ghost k = component_views(key@);
    let mut low: usize = 0;
    let mut high: usize = keys.len();
    while low < high
        invariant
            low <= high <= keys@.len(),
            k == component_views(key@),
            forall|i: int, j: int|
                0 <= i <= j < keys@.len() ==> path_ordered(
                    component_views(#[trigger] keys@[i]@),
                    component_views(#[trigger] keys@[j]@),
                ),
            forall|i: int|
                0 <= i < low ==> !path_ordered(k, component_views(#[trigger] keys@[i]@)),
            forall|i: int|
                high <= i < keys@.len() ==> path_ordered(k, component_views(#[trigger] keys@[i]@)),
        decreases high - low,
    {
        let middle: usize = low + (high - low) / 2;
        let ghost m = component_views(keys@[middle as int]@);
        if are_paths_ordered(key.as_slice(), keys[middle].as_slice()) {
            assert forall|i: int| middle <= i < keys@.len() implies path_ordered(
                k,
                component_views(#[trigger] keys@[i]@),
            ) by {
                lemma_path_order_transitive(k, m, component_views(keys@[i]@));
            }
            high = middle;
        } else {
            assert forall|i: int| 0 <= i <= middle implies !path_ordered(
                k,
                component_views(#[trigger] keys@[i]@),
            ) by {
                if path_ordered(k, component_views(keys@[i]@)) {
                    lemma_path_order_transitive(k, component_views(keys@[i]@), m);
                }
            }
            low = middle + 1;
        }
    }
    low
}

/// Inserting a result before those of its own path and behind those of the paths before it
/// keeps the order, and puts it first among the results of its path.
proof fn lemma_insert_result(results: Seq<FileLintResult>, place: int, new: FileLintResult)
    requires
        0 <= place <= results.len(),
        in_path_order(results),
        forall|i: int|
            0 <= i < place ==> !path_ordered(result_path(new), result_path(#[trigger] results[i])),
        forall|i: int|
            place <= i < results.len() ==> path_ordered(
                result_path(new),
                result_path(#[trigger] results[i]),
            ),
    ensures
        in_path_order(results.insert(place, new)),
        forall|path: Seq<Component>| #[trigger]
            results_for(results.insert(place, new), path) == results_for(seq![new], path)
                + results_for(results, path),
{
    let after = results.insert(place, new);
    assert forall|i: int, j: int| 0 <= i <= j < after.len() implies path_ordered(
        result_path(#[trigger] after[i]),
        result_path(#[trigger] after[j]),
    ) by {
        let x = if i < place { results[i] } else if i == place { new } else { results[i - 1] };
        let y = if j < place { results[j] } else if j == place { new } else { results[j - 1] };
        assert(after[i] == x && after[j] == y);
        lemma_path_order_total(result_path(x), result_path(y));
    }
    assert forall|path: Seq<Component>| #[trigger]
        results_for(after, path) == results_for(seq![new], path) + results_for(results, path) by {
        let at_path = |result: FileLintResult| result_path(result) == path;
        let head = results.take(place);
        let tail = results.skip(place);
        assert(after =~= head + (seq![new] + tail));
        assert(results =~= head + tail);
        Seq::filter_distributes_over_add(head, seq![new] + tail, at_path);
        Seq::filter_distributes_over_add(seq![new], tail, at_path);
        Seq::filter_distributes_over_add(head, tail, at_path);
        if path == result_path(new) {
            assert forall|i: int| 0 <= i < head.len() implies !at_path(#[trigger] head[i]) by {
                assert(head[i] == results[i]);
                lemma_path_order_total(result_path(new), result_path(results[i]));
            }
            lemma_filter_none(head, at_path);
            assert(after.filter(at_path) =~= seq![new].filter(at_path) + results.filter(at_path));
        } else {
            reveal_with_fuel(Seq::filter, 2);
            assert(seq![new].drop_last() =~= Seq::<FileLintResult>::empty());
            assert(seq![new].filter(at_path) =~= Seq::<FileLintResult>::empty());
            assert(after.filter(at_path) =~= seq![new].filter(at_path) + results.filter(at_path));
        }
    }
}

proof fn lemma_filter_none(s: Seq<FileLintResult>, pred: spec_fn(FileLintResult) -> bool)
    requires
        forall|i: int| 0 <= i < s.len() ==> !pred(#[trigger] s[i]),
    ensures
        s.filter(pred) == Seq::<FileLintResult>::empty(),
    decreases s.len(),
{
    reveal(Seq::filter);
    if s.len() > 0 {
        lemma_filter_none(s.drop_last(), pred);
    } else {
        assert(s =~= Seq::<FileLintResult>::empty());
    }
}

/// Sorts results by their paths. Results of one path keep their order.
pub fn sort_by_path(results: Vec<FileLintResult>) -> (sorted: Vec<FileLintResult>)
    ensures
        in_path_order(sorted@),
        sorted@.to_multiset() == results@.to_multiset(),
        forall|path: Seq<Component>| #[trigger]
            results_for(sorted@, path) == results_for(results@, path),
{
    let mut left = results;
    let mut sorted: Vec<FileLintResult> = Vec::new();
    let mut keys: Vec<Vec<PathComponent>> = Vec::new();
    let ghost mut done: int = results@.len() as int;
    proof {
        assert(results@.take(done) =~= results@);
        assert(results@.skip(done) =~= sorted@);
    }
    while left.len() > 0
        invariant
            0 <= done <= results@.len(),
            left@ == results@.take(done),
            keys@.len() == sorted@.len(),
            forall|i: int|
                0 <= i < keys@.len() ==> component_views(#[trigger] keys@[i]@) == result_path(
                    sorted@[i],
                ),
            in_path_order(sorted@),
            sorted@.to_multiset() == results@.skip(done).to_multiset(),
            forall|path: Seq<Component>| #[trigger]
                results_for(sorted@, path) == results_for(results@.skip(done), path),
        decreases left@.len(),
    {
        let ghost before = sorted@;
        let ghost old_keys = keys@;
        let ghost rest = results@.skip(done);
        if let Some(result) = left.pop() {
            let key = split_components(result.path.as_slice());
            let place = find_place(&keys, &key);
            proof {
                assert forall|i: int| 0 <= i < place implies !path_ordered(
                    result_path(result),
                    result_path(#[trigger] before[i]),
                ) by {
                    assert(component_views(keys@[i]@) == result_path(before[i]));
                }
                assert forall|i: int| place <= i < before.len() implies path_ordered(
                    result_path(result),
                    result_path(#[trigger] before[i]),
                ) by {
                    assert(component_views(keys@[i]@) == result_path(before[i]));
                }
                lemma_insert_result(before, place as int, result);
                vstd::seq_lib::to_multiset_insert(before, place as int, result);
                vstd::seq_lib::to_multiset_insert(rest, 0, result);
                assert(results@.skip(done - 1) =~= rest.insert(0, result));
                assert(results@.skip(done - 1) =~= seq![result] + rest);
                assert forall|path: Seq<Component>| #[trigger]
                    results_for(before.insert(place as int, result), path) == results_for(
                        results@.skip(done - 1),
                        path,
                    ) by {
                    let at_path = |r: FileLintResult| result_path(r) == path;
                    Seq::filter_distributes_over_add(seq![result], rest, at_path);
                    assert(results_for(before, path) == results_for(rest, path));
                }
                assert(results@.take(done).drop_last() =~= results@.take(done - 1));
            }
            keys.insert(place, key);
            sorted.insert(place, result);
            proof {
                assert forall|i: int| 0 <= i < keys@.len() implies component_views(
                    #[trigger] keys@[i]@,
                ) == result_path(sorted@[i]) by {
                    if i < place {
                        assert(keys@[i] == old_keys[i]);
                    } else if i > place {
                        assert(keys@[i] == old_keys[i - 1]);
                    }
                }
                done = done - 1;
            }
        }
    }
    proof {
        assert(results@.skip(0) =~= results@);
    }
    sorted
}

/// Counts the files and their violations.
pub fn tally(results: &Vec<FileLintResult>) -> (total: LintResult)
    ensures
        total == tally_of(results@),
        total.files_checked == results@.len(),
{
    let mut violations_found: usize = 0;
    for i in 0..results.len()
        invariant
            violations_found == if total_violations(results@.take(i as int)) <= usize::MAX {
                total_violations(results@.take(i as int)) as int
            } else {
                usize::MAX as int
            },
    {
        proof {
            assert(results@.take(i + 1).drop_last() =~= results@.take(i as int));
        }
        violations_found = violations_found.saturating_add(results[i].violations.len());
    }
    proof {
        assert(results@.take(results@.len() as int) =~= results@);
    }
    LintResult { violations_found, files_checked: results.len() }
}

proof fn lemma_total_without(results: Seq<FileLintResult>, i: int)
    requires
        0 <= i < results.len(),
    ensures
        total_violations(results) == total_violations(results.remove(i))
            + results[i].violations@.len(),
    decreases results.len(),
{
    let n = results.len() as int;
    if i < n - 1 {
        let front = results.drop_last();
        lemma_total_without(front, i);
        assert(results.remove(i).drop_last() =~= front.remove(i));
        assert(results.remove(i).last() == results.last());
    } else {
        assert(results.remove(i) =~= results.drop_last());
    }
}

/// The number of violations does not depend on the order of the results.
pub proof fn lemma_total_in_any_order(a: Seq<FileLintResult>, b: Seq<FileLintResult>)
    requires
        a.to_multiset() == b.to_multiset(),
    ensures
        total_violations(a) == total_violations(b),
    decreases a.len(),
{
    a.to_multiset_ensures();
    b.to_multiset_ensures();
    if a.len() > 0 {
        let last = a.last();
        assert(a.contains(last));
        assert(b.contains(last)) by {
            assert(a.to_multiset().count(last) > 0);
        }
        let i = choose|i: int| 0 <= i < b.len() && b[i] == last;
        assert(a.drop_last() =~= a.remove(a.len() - 1));
        lemma_total_in_any_order(a.drop_last(), b.remove(i));
        lemma_total_without(b, i);
    }
}

proof fn lemma_nothing_found(results: Seq<FileLintResult>)
    ensures
        total_violations(results) == 0 <==> forall|i: int|
            0 <= i < results.len() ==> (#[trigger] results[i]).violations@.len() == 0,
    decreases results.len(),
{
    if results.len() > 0 {
        let front = results.drop_last();
        lemma_nothing_found(front);
        if total_violations(results) == 0 {
            assert forall|i: int| 0 <= i < results.len() implies (
            #[trigger] results[i]).violations@.len() == 0 by {
                if i < front.len() {
                    assert(results[i] == front[i]);
                }
            }
        } else if forall|i: int|
            0 <= i < results.len() ==> (#[trigger] results[i]).violations@.len() == 0 {
            assert forall|i: int| 0 <= i < front.len() implies (
            #[trigger] front[i]).violations@.len() == 0 by {
                assert(results[i] == front[i]);
            }
            assert(results[results.len() - 1].violations@.len() == 0);
        }
    }
}

/// The program exits with status 0 exactly where no file has a violation.
pub proof fn lemma_clean_exit(results: Seq<FileLintResult>)
    ensures
        status_of(tally_of(results)) == 0 <==> forall|i: int|
            0 <= i < results.len() ==> (#[trigger] results[i]).violations@.len() == 0,
{
    lemma_nothing_found(results);
}

/// Sorts results by their paths and counts them.
pub fn collect_results(results: Vec<FileLintResult>) -> (r: (Vec<FileLintResult>, LintResult))
    ensures
        in_path_order(r.0@),
        r.0@.to_multiset() == results@.to_multiset(),
        forall|path: Seq<Component>| #[trigger]
            results_for(r.0@, path) == results_for(results@, path),
        r.1 == tally_of(results@),
        r.1.files_checked == results@.len(),
{
    let ghost given = results@;
    let sorted = sort_by_path(results);
    proof {
        lemma_total_in_any_order(sorted@, given);
        sorted@.to_multiset_ensures();
        given.to_multiset_ensures();
    }
    let total = tally(&sorted);
    (sorted, total)
}

/// The status that the program exits with: 0 where nothing was found, 1 otherwise.
pub fn exit_status(total: &LintResult) -> (status: i32)
    ensures
        status == status_of(*total),
{
    if total.violations_found == 0 {
        0
    } else {
        1
    }
}

} // verus!
