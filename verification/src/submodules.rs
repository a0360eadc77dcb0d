//! Git submodules, which belong to another repository and are not entered.

use vstd::prelude::*;
use vstd::slice::{slice_subrange, slice_to_vec};
use vstd::utf8::encode_utf8;

use crate::files::{excluded, excluded_component, is_excluded};
use crate::path::{
    component_views, components, joined, lemma_components_joined, relative_components,
    same_components, split_components, Component,
};
use crate::text::{
    contains, contains_text, cut_at_first, cut_once, lemma_first_of_character, lemma_lines_ended,
    lemma_lines_joined, lemma_trimmed_around, lemma_trimmed_contains, lemma_trimmed_in_parts,
    lemma_trimmed_start, lemma_trimmed_without_carriage_return, occurs_at, replace_char, replaced,
    same_text, split_lines, starts_with, strip_char, stripped, text_lines, texts, to_chars,
    to_text, trim, trim_start, trimmed, trimmed_end, trimmed_start, without_carriage_return,
};

verus! {

/// The path that a line of `.gitmodules` gives: the value of its key `path`, without white
/// space and then without quotation marks around it.
pub open spec fn gitmodules_path(line: Seq<char>) -> Option<Seq<char>> {
    match cut_at_first(trimmed(line), '=') {
        Some((key, value)) if trimmed(key) == "path"@ => Some(stripped(trimmed(value), '"')),
        _ => None,
    }
}

/// The paths that the content of `.gitmodules` gives, in its order.
pub open spec fn gitmodules_paths(content: Seq<char>) -> Seq<Seq<char>> {
    text_lines(content).filter_map(|line: Seq<char>| gitmodules_path(line))
}

/// The directory that a line of a `.git` file names.
pub open spec fn gitdir_of_line(line: Seq<char>) -> Option<Seq<char>> {
    let content = trimmed_start(line);
    if "gitdir:"@.is_prefix_of(content) {
        Some(trimmed(content.skip("gitdir:"@.len() as int)))
    } else {
        None
    }
}

/// The directory that the first of some lines names which names one.
pub open spec fn first_gitdir(lines: Seq<Seq<char>>) -> Option<Seq<char>>
    decreases lines.len(),
{
    if lines.len() == 0 {
        None
    } else if gitdir_of_line(lines.first()) is Some {
        gitdir_of_line(lines.first())
    } else {
        first_gitdir(lines.drop_first())
    }
}

/// The Git directory is that of a submodule.
pub open spec fn submodule_gitdir(gitdir: Seq<char>) -> bool {
    let normalized = replaced(gitdir, '\\', '/');
    ||| contains_text(normalized, "/.git/modules/"@)
    ||| ".git/modules/"@.is_prefix_of(normalized)
    ||| "../.git/modules/"@.is_prefix_of(normalized)
}

/// The `.git` file that a directory has, if it has one, marks the directory as a submodule.
pub open spec fn marks_submodule(git_file: Option<Seq<char>>) -> bool {
    match git_file {
        Some(content) => match first_gitdir(text_lines(content)) {
            Some(gitdir) => submodule_gitdir(gitdir),
            None => false,
        },
        None => false,
    }
}

/// The characters of a text that may be absent.
pub open spec fn optional_text(text: Option<&str>) -> Option<Seq<char>> {
    match text {
        Some(t) => Some(t@),
        None => None,
    }
}

/// The bytes of each of some paths.
pub open spec fn path_views(paths: Seq<Vec<u8>>) -> Seq<Seq<u8>> {
    paths.map_values(|path: Vec<u8>| path@)
}

/// The UTF-8 bytes of each of some texts.
pub open spec fn encoded(items: Seq<Seq<char>>) -> Seq<Seq<u8>> {
    items.map_values(|item: Seq<char>| encode_utf8(item))
}

/// A path is, below the root, one of the declared paths.
pub open spec fn declared_submodule(
    root: Seq<u8>,
    declared: Seq<Seq<u8>>,
    path: Seq<u8>,
) -> bool {
    let base = components(root);
    let parts = components(path);
    &&& base.is_prefix_of(parts)
    &&& exists|i: int|
        0 <= i < declared.len() && components(#[trigger] declared[i]) == parts.skip(
            base.len() as int,
        )
}

/// A directory is a submodule: it is declared as one, or it is not the root and its `.git`
/// file marks it.
pub open spec fn submodule_dir(
    root: Seq<u8>,
    declared: Seq<Seq<u8>>,
    path: Seq<u8>,
    git_file: Option<Seq<char>>,
) -> bool {
    ||| declared_submodule(root, declared, path)
    ||| components(path) != components(root) && marks_submodule(git_file)
}

/// An entry of a directory is kept: it is not excluded, and it is no submodule.
pub open spec fn entry_kept(
    root: Seq<u8>,
    declared: Seq<Seq<u8>>,
    path: Seq<u8>,
    is_dir: bool,
    git_file: Option<Seq<char>>,
) -> bool {
    !excluded(path) && (!is_dir || !submodule_dir(root, declared, path, git_file))
}

/// The directories of a tree that are submodules, as far as the root's `.gitmodules` says.
#[derive(Debug)]
pub struct SubmodulePruner {
    pub root: Vec<u8>,
    pub gitmodules_paths: Vec<Vec<u8>>,
}

/// What to do with an entry of a directory before its `.git` file is read.
#[derive(Debug, Clone, Copy, PartialEq, Eq, Structural)]
pub enum EntryDecision {
    Keep,
    Prune,
    ReadGitFile,
}

/// What to do with an entry of a directory before its `.git` file is read.
pub open spec fn entry_decision(
    root: Seq<u8>,
    declared: Seq<Seq<u8>>,
    path: Seq<u8>,
    is_dir: bool,
) -> EntryDecision {
    if excluded(path) {
        EntryDecision::Prune
    } else if !is_dir {
        EntryDecision::Keep
    } else if declared_submodule(root, declared, path) {
        EntryDecision::Prune
    } else if components(path) == components(root) {
        EntryDecision::Keep
    } else {
        EntryDecision::ReadGitFile
    }
}

/// The path that a line of `.gitmodules` gives.
fn read_gitmodules_path(line: &str) -> (path: Option<String>)
    ensures
        match path {
            Some(text) => gitmodules_path(line@) == Some(text@),
            None => gitmodules_path(line@) is None,
        },
{
    let chars = to_chars(line);
    match cut_once(trim(chars.as_slice()), '=') {
        Some((key, value)) => if same_text(trim(key), "path") {
            Some(to_text(strip_char(trim(value), '"')))
        } else {
            None
        },
        None => None,
    }
}

/// The paths that the content of `.gitmodules` gives.
pub fn parse_gitmodules_paths_from_content(content: &str) -> (paths: Vec<Vec<u8>>)
    ensures
        path_views(paths@) == encoded(gitmodules_paths(content@)),
{
    let lines = split_lines(content);
    let ghost all = text_lines(content@);
    let ghost f = |line: Seq<char>| gitmodules_path(line);
    let mut paths: Vec<Vec<u8>> = Vec::new();
    proof {
        assert(all.take(0) =~= seq![]);
        assert(path_views(paths@) =~= encoded(all.take(0).filter_map(f)));
    }
    for i in 0..lines.len()
        invariant
            all == text_lines(content@),
            texts(lines@) == all,
            f == (|line: Seq<char>| gitmodules_path(line)),
            path_views(paths@) == encoded(all.take(i as int).filter_map(f)),
    {
        let ghost before = paths@;
        let ghost found = all.take(i as int).filter_map(f);
        proof {
            assert(all[i as int] == lines@[i as int]@);
            assert(all.take(i + 1).drop_last() =~= all.take(i as int));
            assert(all.take(i + 1).last() == all[i as int]);
        }
        match read_gitmodules_path(lines[i].as_str()) {
            Some(path) => {
                paths.push(slice_to_vec(path.as_str().as_bytes()));
                proof {
                    assert(all.take(i + 1).filter_map(f) == found + seq![path@]);
                    assert(path_views(paths@) =~= path_views(before).push(encode_utf8(path@)));
                    assert(encoded(found + seq![path@]) =~= encoded(found).push(
                        encode_utf8(path@),
                    ));
                }
            },
            None => {},
        }
    }
    proof {
        assert(all.take(lines@.len() as int) =~= all);
    }
    paths
}

/// The paths that `.gitmodules` gives, if there is one.
pub fn parse_gitmodules_paths(gitmodules: Option<&str>) -> (paths: Vec<Vec<u8>>)
    ensures
        path_views(paths@) == match gitmodules {
            Some(content) => encoded(gitmodules_paths(content@)),
            None => seq![],
        },
{
    match gitmodules {
        Some(content) => parse_gitmodules_paths_from_content(content),
        None => {
            let none: Vec<Vec<u8>> = Vec::new();
            assert(path_views(none@) =~= seq![]);
            none
        },
    }
}

/// The directory that the content of a `.git` file names.
pub fn parse_gitdir_target_from_content(content: &str) -> (gitdir: Option<String>)
    ensures
        match gitdir {
            Some(text) => first_gitdir(text_lines(content@)) == Some(text@),
            None => first_gitdir(text_lines(content@)) is None,
        },
{
    let lines = split_lines(content);
    let ghost all = text_lines(content@);
    assert(all.skip(0) =~= all);
    let n: usize = lines.len();
    for i in 0..n
        invariant
            all == text_lines(content@),
            texts(lines@) == all,
            n == lines@.len(),
            first_gitdir(all) == first_gitdir(all.skip(i as int)),
    {
        let chars = to_chars(lines[i].as_str());
        let line = trim_start(chars.as_slice());
        proof {
            reveal_strlit("gitdir:");
            assert(all.skip(i as int).first() == lines@[i as int]@);
            assert(all.skip(i as int).drop_first() =~= all.skip(i + 1));
        }
        if starts_with(line, "gitdir:") {
            let target = slice_subrange(line, 7, line.len());
            assert(target@ =~= line@.skip(7));
            return Some(to_text(trim(target)));
        }
    }
    None
}

/// Whether a Git directory is that of a submodule.
pub fn gitdir_target_is_submodule(gitdir: &str) -> (r: bool)
    ensures
        r == submodule_gitdir(gitdir@),
{
    let normalized = replace_char(to_chars(gitdir).as_slice(), '\\', '/');
    contains(normalized.as_slice(), "/.git/modules/") || starts_with(
        normalized.as_slice(),
        ".git/modules/",
    ) || starts_with(normalized.as_slice(), "../.git/modules/")
}

/// Whether the `.git` file of a directory, if there is one, marks it as a submodule.
pub fn has_submodule_gitdir_file(git_file: Option<&str>) -> (r: bool)
    ensures
        r == marks_submodule(optional_text(git_file)),
{
    match git_file {
        Some(content) => match parse_gitdir_target_from_content(content) {
            Some(gitdir) => gitdir_target_is_submodule(gitdir.as_str()),
            None => false,
        },
        None => false,
    }
}

/// Whether two paths have the same components.
fn same_path(a: &[u8], b: &[u8]) -> (r: bool)
    ensures
        r == (components(a@) == components(b@)),
{
    same_components(split_components(a).as_slice(), split_components(b).as_slice())
}

impl SubmodulePruner {
    /// The pruner for a tree, given the content of `.gitmodules` in its root, if any.
    pub fn new(root: &[u8], gitmodules: Option<&str>) -> (pruner: SubmodulePruner)
        ensures
            pruner.root@ == root@,
            path_views(pruner.gitmodules_paths@) == match gitmodules {
                Some(content) => encoded(gitmodules_paths(content@)),
                None => seq![],
            },
    {
        SubmodulePruner {
            root: slice_to_vec(root),
            gitmodules_paths: parse_gitmodules_paths(gitmodules),
        }
    }

    /// Whether a path is, below the root, one of the declared paths.
    pub fn is_declared_submodule_path(&self, path: &[u8]) -> (r: bool)
        ensures
            r == declared_submodule(self.root@, path_views(self.gitmodules_paths@), path@),
    {
        let base = split_components(self.root.as_slice());
        let parts = split_components(path);
        let ghost x = components(self.root@);
        let ghost y = components(path@);
        let ghost declared = path_views(self.gitmodules_paths@);
        if base.len() > parts.len() {
            assert(x.len() > y.len());
            return false;
        }
        let head = slice_subrange(parts.as_slice(), 0, base.len());
        assert(component_views(head@) =~= y.subrange(0, x.len() as int));
        if !same_components(base.as_slice(), head) {
            return false;
        }
        let relative = slice_subrange(parts.as_slice(), base.len(), parts.len());
        assert(component_views(relative@) =~= y.skip(x.len() as int));
        for i in 0..self.gitmodules_paths.len()
            invariant
                x == components(self.root@),
                y == components(path@),
                declared == path_views(self.gitmodules_paths@),
                component_views(relative@) == y.skip(x.len() as int),
                x.is_prefix_of(y),
                forall|j: int|
                    0 <= j < i ==> components(#[trigger] declared[j]) != y.skip(x.len() as int),
        {
            assert(declared[i as int] == self.gitmodules_paths@[i as int]@);
            let submodule = split_components(self.gitmodules_paths[i].as_slice());
            if same_components(relative, submodule.as_slice()) {
                assert(components(declared[i as int]) == y.skip(x.len() as int));
                return true;
            }
        }
        false
    }

    /// Whether a directory is a submodule, given the content of its `.git` file, if any.
    pub fn is_submodule_dir(&self, path: &[u8], git_file: Option<&str>) -> (r: bool)
        ensures
            r == submodule_dir(
                self.root@,
                path_views(self.gitmodules_paths@),
                path@,
                optional_text(git_file),
            ),
    {
        self.is_declared_submodule_path(path) || (!same_path(path, self.root.as_slice())
            && has_submodule_gitdir_file(git_file))
    }

    /// What to do with an entry of a directory before its `.git` file is read.
    pub fn decide_entry(&self, path: &[u8], is_dir: bool) -> (decision: EntryDecision)
        ensures
            decision == entry_decision(
                self.root@,
                path_views(self.gitmodules_paths@),
                path@,
                is_dir,
            ),
    {
        if is_excluded(path) {
            EntryDecision::Prune
        } else if !is_dir {
            EntryDecision::Keep
        } else if self.is_declared_submodule_path(path) {
            EntryDecision::Prune
        } else if same_path(path, self.root.as_slice()) {
            EntryDecision::Keep
        } else {
            EntryDecision::ReadGitFile
        }
    }

    /// Whether an entry of a directory is kept, given the content of its `.git` file, if any.
    pub fn keeps_entry(&self, path: &[u8], is_dir: bool, git_file: Option<&str>) -> (r: bool)
        ensures
            r == entry_kept(
                self.root@,
                path_views(self.gitmodules_paths@),
                path@,
                is_dir,
                optional_text(git_file),
            ),
    {
        !is_excluded(path) && (!is_dir || !self.is_submodule_dir(path, git_file))
    }
}

/// The decision before the `.git` file is read holds whatever the file says, unless it is
/// to read the file: then the file alone decides.
pub proof fn lemma_entry_decision(
    root: Seq<u8>,
    declared: Seq<Seq<u8>>,
    path: Seq<u8>,
    is_dir: bool,
    git_file: Option<Seq<char>>,
)
    ensures
        entry_kept(root, declared, path, is_dir, git_file) == match entry_decision(
            root,
            declared,
            path,
            is_dir,
        ) {
            EntryDecision::Keep => true,
            EntryDecision::Prune => false,
            EntryDecision::ReadGitFile => !marks_submodule(git_file),
        },
{
}

/// A declared path below the root is declared, as long as it neither starts at the root of
/// the file system nor with `.`.
pub proof fn lemma_declared_below_root(root: Seq<u8>, declared: Seq<Seq<u8>>, i: int)
    requires
        root.len() > 0,
        0 <= i < declared.len(),
        components(declared[i]) == relative_components(declared[i], false),
    ensures
        declared_submodule(root, declared, joined(root, declared[i])),
{
    let base = components(root);
    let parts = components(joined(root, declared[i]));
    lemma_components_joined(root, declared[i]);
    assert(parts.subrange(0, base.len() as int) =~= base);
    assert(parts.skip(base.len() as int) =~= components(declared[i]));
}

/// Two ways to write a path with the same components are declared alike.
pub proof fn lemma_declared_by_components(
    root: Seq<u8>,
    declared: Seq<Seq<u8>>,
    a: Seq<u8>,
    b: Seq<u8>,
)
    requires
        components(a) == components(b),
    ensures
        declared_submodule(root, declared, a) == declared_submodule(root, declared, b),
{
}

/// The root of a tree is not pruned for its own `.git` file: it may be a submodule itself.
pub proof fn lemma_root_is_not_marked(
    root: Seq<u8>,
    declared: Seq<Seq<u8>>,
    path: Seq<u8>,
    git_file: Option<Seq<char>>,
)
    requires
        components(path) == components(root),
    ensures
        submodule_dir(root, declared, path, git_file) == declared_submodule(root, declared, path),
{
}

proof fn lemma_filter_map_push(lines: Seq<Seq<char>>, line: Seq<char>)
    ensures
        lines.push(line).filter_map(|l: Seq<char>| gitmodules_path(l)) == lines.filter_map(
            |l: Seq<char>| gitmodules_path(l),
        ) + match gitmodules_path(line) {
            Some(path) => seq![path],
            None => seq![],
        },
{
    let f = |l: Seq<char>| gitmodules_path(l);
    assert(lines.push(line).drop_last() =~= lines);
    assert(lines.filter_map(f) + Seq::<Seq<char>>::empty() =~= lines.filter_map(f));
}

proof fn lemma_filter_map_joined(a: Seq<Seq<char>>, b: Seq<Seq<char>>)
    ensures
        (a + b).filter_map(|l: Seq<char>| gitmodules_path(l)) == a.filter_map(
            |l: Seq<char>| gitmodules_path(l),
        ) + b.filter_map(|l: Seq<char>| gitmodules_path(l)),
    decreases b.len(),
{
    let f = |l: Seq<char>| gitmodules_path(l);
    if b.len() == 0 {
        assert(a + b =~= a);
        assert(a.filter_map(f) + b.filter_map(f) =~= a.filter_map(f));
    } else {
        let front = b.drop_last();
        lemma_filter_map_joined(a, front);
        lemma_filter_map_push(a + front, b.last());
        lemma_filter_map_push(front, b.last());
        assert(a + b =~= (a + front).push(b.last()));
        assert(b =~= front.push(b.last()));
        assert((a + b).filter_map(f) =~= a.filter_map(f) + b.filter_map(f));
    }
}

/// Two contents of `.gitmodules` with a line feed between them give the paths of the first
/// and then those of the second: their order is kept, and none is dropped for occurring
/// twice.
pub proof fn lemma_gitmodules_joined(a: Seq<char>, b: Seq<char>)
    ensures
        gitmodules_paths(a + seq!['\n'] + b) == gitmodules_paths(a) + gitmodules_paths(b),
{
    let ended = a + seq!['\n'];
    lemma_lines_joined(a, b);
    lemma_filter_map_joined(text_lines(ended), text_lines(b));
    lemma_lines_ended(a);
    if a.len() == 0 || a.last() == '\n' {
        lemma_filter_map_push(text_lines(a), Seq::empty());
        assert(trimmed(Seq::<char>::empty()) =~= Seq::<char>::empty());
        assert(gitmodules_paths(ended) =~= gitmodules_paths(a));
    } else {
        let front = text_lines(a).drop_last();
        let last = text_lines(a).last();
        lemma_filter_map_push(front, without_carriage_return(last));
        lemma_filter_map_push(front, last);
        assert(text_lines(a) =~= front.push(last));
        lemma_trimmed_without_carriage_return(last);
    }
}

/// One line is read by itself.
proof fn lemma_gitmodules_line(line: Seq<char>)
    requires
        !line.contains('\n'),
    ensures
        gitmodules_paths(line) == match gitmodules_path(line) {
            Some(path) => seq![path],
            None => seq![],
        },
{
    let none = Seq::<Seq<char>>::empty();
    if line.len() == 0 {
        assert(trimmed(line) =~= Seq::<char>::empty());
        assert(text_lines(line) =~= none);
    } else {
        assert(text_lines(line) =~= none.push(line));
        lemma_filter_map_push(none, line);
        assert(gitmodules_paths(line) =~= match gitmodules_path(line) {
            Some(path) => seq![path],
            None => seq![],
        });
    }
}

/// A line with a key and a value gives the value where the key is `path`, without the white
/// space and then without the quotation marks around it, and nothing for another key.
pub proof fn lemma_gitmodules_key_and_value(key: Seq<char>, value: Seq<char>)
    requires
        !key.contains('='),
        !(key + seq!['='] + value).contains('\n'),
    ensures
        gitmodules_paths(key + seq!['='] + value) == if trimmed(key) == "path"@ {
            seq![stripped(trimmed(value), '"')]
        } else {
            seq![]
        },
{
    let line = key + seq!['='] + value;
    let start = trimmed_start(key);
    let end = trimmed_end(value);
    lemma_gitmodules_line(line);
    lemma_trimmed_around(key, '=', value);
    lemma_trimmed_start(key);
    assert(!start.contains('=')) by {
        assert forall|i: int| 0 <= i < start.len() implies start[i] != '=' by {
            let n = key.len() - start.len();
            assert(key.subrange(n, key.len() as int)[i] == key[n + i]);
        }
    }
    lemma_first_of_character(start, '=', end);
    assert(trimmed(line)[start.len() as int] == '=');
    assert(trimmed(line).skip(start.len() + 1int) =~= end);
    lemma_trimmed_in_parts(key);
    lemma_trimmed_in_parts(value);
}

/// A line without `=` gives nothing.
pub proof fn lemma_gitmodules_without_value(line: Seq<char>)
    requires
        !line.contains('='),
        !line.contains('\n'),
    ensures
        gitmodules_paths(line) == Seq::<Seq<char>>::empty(),
{
    lemma_gitmodules_line(line);
    if trimmed(line).contains('=') {
        let i = choose|i: int| 0 <= i < trimmed(line).len() && trimmed(line)[i] == '=';
        assert(trimmed(line).subrange(i, i + 1) =~= seq!['=']);
        assert(occurs_at(trimmed(line), seq!['='], i));
        lemma_trimmed_contains(line, seq!['=']);
        let j = choose|j: int| occurs_at(line, seq!['='], j);
        assert(line.subrange(j, j + 1)[0] == line[j]);
    }
}

/// A walk from the root of a tree leads to a file through the directories above it: each step
/// has one component more than the one before it.
pub open spec fn leads_to(root: Seq<u8>, steps: Seq<Seq<u8>>) -> bool {
    &&& steps.len() > 1
    &&& components(steps[0]) == components(root)
    &&& forall|i: int|
        0 <= i < steps.len() ==> {
            let parts = components(#[trigger] steps[i]);
            let whole = components(steps.last());
            &&& parts.len() == components(root).len() + i
            &&& parts.is_prefix_of(whole)
        }
}

/// Each entry behind the root is kept on the way to a file. `git_file` gives the content of
/// the `.git` file in a directory, if it has one.
pub open spec fn kept_on_the_way(
    root: Seq<u8>,
    declared: Seq<Seq<u8>>,
    steps: Seq<Seq<u8>>,
    git_file: spec_fn(Seq<Component>) -> Option<Seq<char>>,
) -> bool {
    forall|i: int|
        1 <= i < steps.len() ==> entry_kept(
            root,
            declared,
            #[trigger] steps[i],
            i < steps.len() - 1,
            git_file(components(steps[i])),
        )
}

/// A walk reaches a file exactly where no component of the file's path is excluded and no
/// directory between the root and the file is a submodule.
pub proof fn lemma_walk_reaches(
    root: Seq<u8>,
    declared: Seq<Seq<u8>>,
    steps: Seq<Seq<u8>>,
    git_file: spec_fn(Seq<Component>) -> Option<Seq<char>>,
)
    requires
        leads_to(root, steps),
    ensures
        kept_on_the_way(root, declared, steps, git_file) <==> {
            &&& !excluded(steps.last())
            &&& forall|dir: Seq<u8>|
                between(root, dir, steps.last()) ==> !#[trigger] submodule_dir(
                    root,
                    declared,
                    dir,
                    git_file(components(dir)),
                )
        },
{
    let file = steps.last();
    let base = components(root).len() as int;
    let n = steps.len() as int;
    if kept_on_the_way(root, declared, steps, git_file) {
        assert(entry_kept(root, declared, steps[n - 1], false, git_file(components(steps[n - 1]))));
        assert forall|dir: Seq<u8>| between(root, dir, file) implies !#[trigger] submodule_dir(
            root,
            declared,
            dir,
            git_file(components(dir)),
        ) by {
            let i = components(dir).len() - base;
            let step = steps[i];
            assert(components(step).len() == base + i);
            assert(components(steps[n - 1]).len() == base + n - 1);
            assert(components(step) =~= components(file).subrange(0, base + i));
            assert(components(dir) == components(step));
            assert(entry_kept(root, declared, steps[i], true, git_file(components(steps[i]))));
        }
    }
    if !excluded(file) && forall|dir: Seq<u8>|
        between(root, dir, file) ==> !#[trigger] submodule_dir(
            root,
            declared,
            dir,
            git_file(components(dir)),
        ) {
        assert forall|i: int| 1 <= i < n implies entry_kept(
            root,
            declared,
            #[trigger] steps[i],
            i < n - 1,
            git_file(components(steps[i])),
        ) by {
            let parts = components(steps[i]);
            assert(parts == components(file).subrange(0, parts.len() as int));
            if excluded(steps[i]) {
                let j = choose|j: int|
                    0 <= j < parts.len() && excluded_component(#[trigger] parts[j]);
                assert(components(file)[j] == parts[j]);
            }
            if i < n - 1 {
                assert(components(steps[0]).len() == base);
                assert(components(steps[n - 1]).len() == base + n - 1);
                assert(components(root) =~= parts.subrange(0, base)) by {
                    assert(components(steps[0]) == components(file).subrange(0, base));
                }
                assert(between(root, steps[i], file));
                assert(!submodule_dir(root, declared, steps[i], git_file(components(steps[i]))));
            }
        }
    }
}

/// A directory lies below the root and above the file.
pub open spec fn between(root: Seq<u8>, dir: Seq<u8>, file: Seq<u8>) -> bool {
    &&& components(root).is_prefix_of(components(dir))
    &&& components(dir).is_prefix_of(components(file))
    &&& components(root).len() < components(dir).len() < components(file).len()
}

} // verus!
