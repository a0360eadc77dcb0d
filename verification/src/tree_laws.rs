//! What the choice of files and directories promises, in terms of their names.

use vstd::prelude::*;
use vstd::utf8::{
    encode_utf8, encode_utf8_decode_utf8, encode_utf8_valid_utf8, is_ascii_chars,
    is_ascii_chars_encode_utf8, valid_utf8,
};

use crate::files::{
    checked_file, comment_style, contains_bytes, dockerfile_name, excluded, excluded_component,
    excluded_name, extension_named, makefile_name, shell_file, yaml_file,
};
use crate::path::{
    bytes_ordered, component_ordered, components, file_name, file_name_text, first_byte,
    last_byte, lemma_components_joined, lower, path_ordered, relative_components,
    replaced_bytes, same_ignoring_case, Component, PathComponent, DOT, SEPARATOR,
};
use crate::results::{in_path_order, lint_findings, result_path, results_for, FileLintResult};
use crate::scan::file_findings;
use crate::submodules::{
    declared_submodule, entry_kept, gitdir_of_line, marks_submodule, submodule_dir,
    submodule_gitdir,
};
use crate::text::{contains_text, occurs_at, replaced, text_lines, white_space};
use crate::text_laws::{
    blank, lemma_lines_one_by_one, lemma_parts_of_containing, lemma_trimmed_between,
    lemma_trimmed_start_of, solid,
};

verus! {

/// The component that a name between two separators is, if it is one.
pub open spec fn as_component(name: Seq<u8>) -> Seq<Component> {
    if name.len() == 0 || name == seq![0x2eu8] {
        seq![]
    } else if name == seq![0x2eu8, 0x2eu8] {
        seq![Component::ParentDir]
    } else {
        seq![Component::Normal(name)]
    }
}

proof fn lemma_no_separator(name: Seq<u8>)
    requires
        !name.contains(0x2f),
    ensures
        first_byte(name, SEPARATOR) == name.len(),
    decreases name.len(),
{
    if name.len() > 0 {
        assert(name[0] == name.first());
        assert(!name.drop_first().contains(0x2f)) by {
            assert forall|i: int| 0 <= i < name.drop_first().len() implies name.drop_first()[i]
                != 0x2f by {
                assert(name[i + 1] != 0x2f);
            }
        }
        lemma_no_separator(name.drop_first());
    }
}

/// A path is read name by name: behind another path and a slash, a name adds itself, `..` adds
/// the parent, and `.` and nothing add nothing. A name by itself is read likewise, except that
/// `.` counts. A slash in front is the root.
pub proof fn lemma_components_name_by_name(path: Seq<u8>, name: Seq<u8>)
    requires
        !name.contains(0x2f),
    ensures
        path.len() > 0 ==> components(path + seq![0x2fu8] + name) == components(path)
            + as_component(name),
        components(seq![0x2fu8] + name) == seq![Component::RootDir] + as_component(name),
        components(name) == if name == seq![0x2eu8] {
            seq![Component::CurDir]
        } else {
            as_component(name)
        },
{
    let none = Seq::<u8>::empty();
    lemma_no_separator(name);
    assert(relative_components(name, false) =~= as_component(name));
    if path.len() > 0 {
        lemma_components_joined(path, name);
    }
    if name.len() > 0 {
        assert(name[0] != 0x2f);
    }
    assert(components(name) =~= if name == seq![0x2eu8] {
        seq![Component::CurDir]
    } else {
        as_component(name)
    });
    let rooted = seq![0x2fu8] + name;
    assert(rooted.first() == SEPARATOR);
    assert(first_byte(rooted, SEPARATOR) == 0);
    assert(rooted.take(0) =~= none);
    assert(rooted.skip(1) =~= name);
    assert(relative_components(rooted, true) =~= as_component(name));
    assert(components(rooted) =~= seq![Component::RootDir] + as_component(name));
}

/// A name that can stand for a file: not empty, no slash in it, neither `.` nor `..`.
pub open spec fn proper_name(name: Seq<u8>) -> bool {
    &&& name.len() > 0
    &&& !name.contains(0x2f)
    &&& name != seq![0x2eu8]
    &&& name != seq![0x2eu8, 0x2eu8]
}

/// The path is the name, or leads to it through a directory.
pub open spec fn leads_to_name(path: Seq<u8>, name: Seq<u8>) -> bool {
    path == name || exists|dir: Seq<u8>| path == #[trigger] (dir + seq![0x2fu8]) + name
}

/// The name of a file is what stands behind the last slash of its path, wherever it lies.
pub proof fn lemma_file_name(path: Seq<u8>, name: Seq<u8>)
    requires
        proper_name(name),
        leads_to_name(path, name),
    ensures
        file_name(path) == Some(name),
{
    if path == name {
        lemma_components_name_by_name(Seq::empty(), name);
    } else {
        let dir = choose|dir: Seq<u8>| path == #[trigger] (dir + seq![0x2fu8]) + name;
        lemma_components_name_by_name(dir, name);
        if dir.len() == 0 {
            assert(path =~= seq![0x2fu8] + name);
        }
    }
    assert(components(path).last() == Component::Normal(name));
}

/// A slash at the end of a path, and `.`, do not matter to the name of the file. The parent of
/// something has no name, and neither has the root, nor what `.` stands for.
pub proof fn lemma_file_name_at_end(path: Seq<u8>)
    requires
        path.len() > 0,
    ensures
        file_name(path + seq![0x2fu8]) == file_name(path),
        file_name(path + seq![0x2fu8, 0x2eu8]) == file_name(path),
        file_name(path + seq![0x2fu8, 0x2eu8, 0x2eu8]) is None,
        file_name(seq![0x2fu8]) is None,
        file_name(seq![0x2eu8]) is None,
        file_name(Seq::empty()) is None,
{
    let none = Seq::<u8>::empty();
    let dot = seq![0x2eu8];
    let dots = seq![0x2eu8, 0x2eu8];
    lemma_components_name_by_name(path, none);
    lemma_components_name_by_name(path, dot);
    lemma_components_name_by_name(path, dots);
    assert(path + seq![0x2fu8] + none =~= path + seq![0x2fu8]);
    assert(path + seq![0x2fu8] + dot =~= path + seq![0x2fu8, 0x2eu8]);
    assert(path + seq![0x2fu8] + dots =~= path + seq![0x2fu8, 0x2eu8, 0x2eu8]);
    assert(seq![0x2fu8] + none =~= seq![0x2fu8]);
    assert(components(path) + as_component(none) =~= components(path));
    assert(components(path) + as_component(dot) =~= components(path));
    assert((components(path) + as_component(dots)).last() == Component::ParentDir);
    assert((seq![Component::RootDir] + as_component(none)).last() == Component::RootDir);
}

/// Two bytes are the same letter, whatever its case, or the same byte.
pub open spec fn same_letter(a: u8, b: u8) -> bool {
    ||| a == b
    ||| 65 <= a <= 90 && b == a + 32
    ||| 65 <= b <= 90 && a == b + 32
}

/// The name has the extension: something stands in front, then a dot, then the extension, in
/// whatever case.
pub open spec fn ends_in(name: Seq<u8>, extension: Seq<u8>) -> bool {
    let n = name.len() - extension.len();
    &&& n > 1
    &&& name[n - 1] == 0x2e
    &&& forall|i: int| 0 <= i < extension.len() ==> same_letter(#[trigger] name[n + i], extension[i])
}

proof fn lemma_last_dot(name: Seq<u8>)
    ensures
        match last_byte(name, DOT) {
            Some(i) => {
                &&& 0 <= i < name.len()
                &&& name[i] == DOT
                &&& forall|j: int| i < j < name.len() ==> name[j] != DOT
            },
            None => forall|j: int| 0 <= j < name.len() ==> name[j] != DOT,
        },
    decreases name.len(),
{
    if name.len() > 0 && name.last() != DOT {
        let front = name.drop_last();
        lemma_last_dot(front);
        assert forall|j: int| 0 <= j < front.len() implies name[j] == front[j] by {}
    }
}

/// Cases do not matter to letters, and to nothing else.
pub proof fn lemma_same_ignoring_case(a: Seq<u8>, b: Seq<u8>)
    ensures
        same_ignoring_case(a, b) <==> a.len() == b.len() && forall|i: int|
            0 <= i < a.len() ==> same_letter(#[trigger] a[i], b[i]),
{
    if same_ignoring_case(a, b) {
        assert forall|i: int| 0 <= i < a.len() implies same_letter(#[trigger] a[i], b[i]) by {
            assert(lower(a[i]) == lower(b[i]));
        }
    }
    if a.len() == b.len() && forall|i: int| 0 <= i < a.len() ==> same_letter(#[trigger] a[i], b[i]) {
        assert forall|i: int| 0 <= i < a.len() implies lower(#[trigger] a[i]) == lower(b[i]) by {
            assert(same_letter(a[i], b[i]));
        }
    }
}

/// A file has an extension exactly where its name ends in it, wherever the file lies.
pub proof fn lemma_extension(path: Seq<u8>, name: Seq<u8>, wanted: Seq<char>)
    requires
        proper_name(name),
        leads_to_name(path, name),
        !encode_utf8(wanted).contains(0x2e),
    ensures
        extension_named(path, wanted) <==> ends_in(name, encode_utf8(wanted)),
{
    let want = encode_utf8(wanted);
    lemma_file_name(path, name);
    lemma_last_dot(name);
    let n = name.len() - want.len();
    match last_byte(name, DOT) {
        Some(i) if i > 0 => {
            let found = name.skip(i + 1);
            lemma_same_ignoring_case(found, want);
            if extension_named(path, wanted) {
                assert(n == i + 1);
                assert forall|j: int| 0 <= j < want.len() implies same_letter(
                    #[trigger] name[n + j],
                    want[j],
                ) by {
                    assert(found[j] == name[n + j]);
                }
            }
            if ends_in(name, want) {
                assert(n - 1 <= i);
                if i > n - 1 {
                    assert(same_letter(name[n + (i - n)], want[i - n]));
                    assert(want[i - n] == 0x2e);
                }
                assert(n == i + 1);
                assert forall|j: int| 0 <= j < found.len() implies same_letter(
                    #[trigger] found[j],
                    want[j],
                ) by {
                    assert(same_letter(name[n + j], want[j]));
                }
            }
        },
        Some(i) => {
            if ends_in(name, want) {
                assert(n - 1 <= i);
            }
        },
        None => {
            if ends_in(name, want) {
                assert(name[n - 1] == 0x2e);
            }
        },
    }
}

/// The bytes of an ASCII text are its characters.
proof fn lemma_ascii_bytes(text: Seq<char>)
    requires
        is_ascii_chars(text),
        forall|i: int| 0 <= i < text.len() ==> (#[trigger] text[i]) != '.' && text[i] != '/',
    ensures
        encode_utf8(text).len() == text.len(),
        !encode_utf8(text).contains(0x2e),
        !encode_utf8(text).contains(0x2f),
{
    is_ascii_chars_encode_utf8(text);
    let bytes = encode_utf8(text);
    assert forall|i: int| 0 <= i < bytes.len() implies bytes[i] != 0x2e && bytes[i] != 0x2f by {
        assert(bytes[i] == text[i] as u8);
    }
}

/// The extensions that matter have no dot in them.
proof fn lemma_known_extensions()
    ensures
        !encode_utf8("md"@).contains(0x2e),
        !encode_utf8("mk"@).contains(0x2e),
        !encode_utf8("sh"@).contains(0x2e),
        !encode_utf8("bash"@).contains(0x2e),
        !encode_utf8("zsh"@).contains(0x2e),
        !encode_utf8("fish"@).contains(0x2e),
        !encode_utf8("ksh"@).contains(0x2e),
        !encode_utf8("csh"@).contains(0x2e),
        !encode_utf8("yml"@).contains(0x2e),
        !encode_utf8("yaml"@).contains(0x2e),
{
    reveal_strlit("md");
    reveal_strlit("mk");
    reveal_strlit("sh");
    reveal_strlit("bash");
    reveal_strlit("zsh");
    reveal_strlit("fish");
    reveal_strlit("ksh");
    reveal_strlit("csh");
    reveal_strlit("yml");
    reveal_strlit("yaml");
    lemma_ascii_bytes("md"@);
    lemma_ascii_bytes("mk"@);
    lemma_ascii_bytes("sh"@);
    lemma_ascii_bytes("bash"@);
    lemma_ascii_bytes("zsh"@);
    lemma_ascii_bytes("fish"@);
    lemma_ascii_bytes("ksh"@);
    lemma_ascii_bytes("csh"@);
    lemma_ascii_bytes("yml"@);
    lemma_ascii_bytes("yaml"@);
}

/// The name ends in the extension of a shell script.
pub open spec fn shell_name(name: Seq<u8>) -> bool {
    ||| ends_in(name, encode_utf8("sh"@))
    ||| ends_in(name, encode_utf8("bash"@))
    ||| ends_in(name, encode_utf8("zsh"@))
    ||| ends_in(name, encode_utf8("fish"@))
    ||| ends_in(name, encode_utf8("ksh"@))
    ||| ends_in(name, encode_utf8("csh"@))
}

/// The name ends in the extension of YAML.
pub open spec fn yaml_name(name: Seq<u8>) -> bool {
    ends_in(name, encode_utf8("yml"@)) || ends_in(name, encode_utf8("yaml"@))
}

/// The name is that of a makefile or a Dockerfile.
pub open spec fn build_name(text: Seq<char>) -> bool {
    ||| text == "Makefile"@ || text == "makefile"@ || text == "GNUmakefile"@
    ||| ends_in(encode_utf8(text), encode_utf8("mk"@))
    ||| exists|rest: Seq<char>| text == #[trigger] ("Dockerfile"@ + rest)
    ||| exists|start: Seq<char>| text == #[trigger] (start + ".dockerfile"@)
}

/// The path holds the directory of the workflows.
pub open spec fn among_workflows(path: Seq<u8>) -> bool {
    exists|a: Seq<u8>, b: Seq<u8>|
        path == #[trigger] (a + encode_utf8(".github/workflows"@) + b)
}

proof fn lemma_extensions_by_name(path: Seq<u8>, name: Seq<u8>)
    requires
        proper_name(name),
        leads_to_name(path, name),
    ensures
        extension_named(path, "md"@) <==> ends_in(name, encode_utf8("md"@)),
        shell_file(path) <==> shell_name(name),
        yaml_file(path) <==> yaml_name(name),
{
    lemma_known_extensions();
    lemma_extension(path, name, "md"@);
    lemma_extension(path, name, "sh"@);
    lemma_extension(path, name, "bash"@);
    lemma_extension(path, name, "zsh"@);
    lemma_extension(path, name, "fish"@);
    lemma_extension(path, name, "ksh"@);
    lemma_extension(path, name, "csh"@);
    lemma_extension(path, name, "yml"@);
    lemma_extension(path, name, "yaml"@);
}

proof fn lemma_build_name(path: Seq<u8>, text: Seq<char>)
    requires
        proper_name(encode_utf8(text)),
        leads_to_name(path, encode_utf8(text)),
    ensures
        makefile_name(file_name_text(path)) || dockerfile_name(file_name_text(path)) <==> build_name(
            text,
        ),
{
    let name = encode_utf8(text);
    lemma_file_name(path, name);
    encode_utf8_valid_utf8(text);
    encode_utf8_decode_utf8(text);
    assert(file_name_text(path) == text);
    lemma_known_extensions();
    lemma_extension(name, name, "mk"@);
    let docker = "Dockerfile"@;
    let ending = ".dockerfile"@;
    if docker.is_prefix_of(text) {
        assert(text.subrange(0, docker.len() as int) == docker);
        assert(text =~= docker + text.skip(docker.len() as int));
    }
    if exists|rest: Seq<char>| text == #[trigger] ("Dockerfile"@ + rest) {
        assert(text.subrange(0, docker.len() as int) =~= docker);
    }
    let n = text.len() - ending.len();
    if ending.is_suffix_of(text) {
        assert(text.subrange(n, text.len() as int) == ending);
        assert(text =~= text.take(n) + ending);
    }
    if exists|start: Seq<char>| text == #[trigger] (start + ".dockerfile"@) {
        assert(text.subrange(n, text.len() as int) =~= ending);
    }
}

proof fn lemma_among_workflows(path: Seq<u8>)
    ensures
        contains_bytes(path, encode_utf8(".github/workflows"@)) <==> among_workflows(path),
{
    let part = encode_utf8(".github/workflows"@);
    if contains_bytes(path, part) {
        let i = choose|i: int|
            0 <= i <= path.len() - part.len() && #[trigger] path.subrange(i, i + part.len()) == part;
        assert(path =~= path.take(i) + part + path.skip(i + part.len()));
    }
    if among_workflows(path) {
        let (a, b) = choose|a: Seq<u8>, b: Seq<u8>|
            path == #[trigger] (a + encode_utf8(".github/workflows"@) + b);
        let i = a.len() as int;
        assert(path.subrange(i, i + part.len()) =~= part);
    }
}

/// Whether a file is checked is a matter of its name, wherever it lies: makefiles, Dockerfiles,
/// Markdown and shell scripts are. YAML is checked among the workflows. Nothing else is.
pub proof fn lemma_checked_by_name(path: Seq<u8>, text: Seq<char>)
    requires
        proper_name(encode_utf8(text)),
        leads_to_name(path, encode_utf8(text)),
    ensures
        checked_file(path) <==> {
            ||| build_name(text)
            ||| ends_in(encode_utf8(text), encode_utf8("md"@))
            ||| shell_name(encode_utf8(text))
            ||| yaml_name(encode_utf8(text)) && among_workflows(path)
        },
{
    lemma_extensions_by_name(path, encode_utf8(text));
    lemma_build_name(path, text);
    lemma_among_workflows(path);
}

/// A file whose name is not text is checked by its extension alone.
pub proof fn lemma_checked_without_text(path: Seq<u8>, name: Seq<u8>)
    requires
        proper_name(name),
        leads_to_name(path, name),
        !valid_utf8(name),
    ensures
        checked_file(path) <==> {
            ||| ends_in(name, encode_utf8("md"@))
            ||| shell_name(name)
            ||| yaml_name(name) && among_workflows(path)
        },
{
    lemma_extensions_by_name(path, name);
    lemma_among_workflows(path);
    lemma_file_name(path, name);
    let none = Seq::<char>::empty();
    assert(file_name_text(path) == none);
    reveal_strlit("Makefile");
    reveal_strlit("makefile");
    reveal_strlit("GNUmakefile");
    reveal_strlit("Dockerfile");
    reveal_strlit(".dockerfile");
    assert(encode_utf8(none) =~= Seq::<u8>::empty());
    assert(components(Seq::<u8>::empty()) =~= Seq::<Component>::empty()) by {
        lemma_components_name_by_name(Seq::empty(), Seq::empty());
    }
}

/// Two files of one name are both checked or both not, wherever they lie, unless they are YAML.
pub proof fn lemma_place_does_not_matter(a: Seq<u8>, b: Seq<u8>, name: Seq<u8>)
    requires
        proper_name(name),
        leads_to_name(a, name),
        leads_to_name(b, name),
    ensures
        !yaml_name(name) ==> checked_file(a) == checked_file(b),
        comment_style(a) == comment_style(b),
        excluded_last(a) == excluded_last(b),
{
    lemma_extensions_by_name(a, name);
    lemma_extensions_by_name(b, name);
    lemma_file_name(a, name);
    lemma_file_name(b, name);
}

/// The last component of a path is that of an excluded directory.
pub open spec fn excluded_last(path: Seq<u8>) -> bool {
    components(path).len() > 0 && excluded_component(components(path).last())
}

/// How comments are written in a file is a matter of its name: in Markdown as in HTML, in shell
/// scripts, makefiles, Dockerfiles and YAML behind `#`. In other files it is not known.
pub proof fn lemma_comment_style_by_name(path: Seq<u8>, text: Seq<char>)
    requires
        proper_name(encode_utf8(text)),
        leads_to_name(path, encode_utf8(text)),
    ensures
        ends_in(encode_utf8(text), encode_utf8("md"@)) ==> comment_style(path) == Some(
            ("<!--"@, "-->"@),
        ),
        !ends_in(encode_utf8(text), encode_utf8("md"@)) && (shell_name(encode_utf8(text))
            || build_name(text) || yaml_name(encode_utf8(text))) ==> comment_style(path) == Some(
            ("#"@, ""@),
        ),
        !ends_in(encode_utf8(text), encode_utf8("md"@)) && !shell_name(encode_utf8(text))
            && !build_name(text) && !yaml_name(encode_utf8(text)) ==> comment_style(path) is None,
{
    lemma_extensions_by_name(path, encode_utf8(text));
    lemma_build_name(path, text);
}

/// The names of the directories that are left out.
pub open spec fn left_out(name: Seq<u8>) -> bool {
    exists|text: Seq<char>| #[trigger]
        encode_utf8(text) == name && (text == "node_modules"@ || text == ".git"@ || text
            == "target"@ || text == "dist"@ || text == "build"@ || text == "coverage"@ || text
            == "vendor"@ || text == ".next"@ || text == ".nuxt"@ || text == ".turbo"@ || text
            == ".cache"@)
}

proof fn lemma_left_out(name: Seq<u8>)
    ensures
        excluded_name(name) <==> left_out(name),
        left_out(name) ==> name.len() > 2,
{
    reveal_strlit("node_modules");
    reveal_strlit(".git");
    reveal_strlit("target");
    reveal_strlit("dist");
    reveal_strlit("build");
    reveal_strlit("coverage");
    reveal_strlit("vendor");
    reveal_strlit(".next");
    reveal_strlit(".nuxt");
    reveal_strlit(".turbo");
    reveal_strlit(".cache");
    is_ascii_chars_encode_utf8("node_modules"@);
    is_ascii_chars_encode_utf8(".git"@);
    is_ascii_chars_encode_utf8("target"@);
    is_ascii_chars_encode_utf8("dist"@);
    is_ascii_chars_encode_utf8("build"@);
    is_ascii_chars_encode_utf8("coverage"@);
    is_ascii_chars_encode_utf8("vendor"@);
    is_ascii_chars_encode_utf8(".next"@);
    is_ascii_chars_encode_utf8(".nuxt"@);
    is_ascii_chars_encode_utf8(".turbo"@);
    is_ascii_chars_encode_utf8(".cache"@);
}

/// A path is excluded exactly where one of its names is that of a directory that is left out:
/// whatever stands before it or behind it.
pub proof fn lemma_excluded_name_by_name(path: Seq<u8>, name: Seq<u8>)
    requires
        !name.contains(0x2f),
    ensures
        path.len() > 0 ==> (excluded(path + seq![0x2fu8] + name) <==> excluded(path) || left_out(
            name,
        )),
        excluded(seq![0x2fu8] + name) <==> left_out(name),
        excluded(name) <==> left_out(name),
{
    lemma_components_name_by_name(path, name);
    lemma_left_out(name);
    let parts = as_component(name);
    assert((exists|i: int| 0 <= i < parts.len() && excluded_component(#[trigger] parts[i]))
        <==> left_out(name)) by {
        if left_out(name) {
            assert(excluded_component(parts[0]));
        }
    }
    if path.len() > 0 {
        let whole = path + seq![0x2fu8] + name;
        lemma_some_excluded(components(path), parts);
        assert(components(whole) == components(path) + parts);
    }
    lemma_some_excluded(seq![Component::RootDir], parts);
    assert(components(seq![0x2fu8] + name) == seq![Component::RootDir] + parts);
    if name == seq![0x2eu8] {
        assert(!excluded(name));
    } else {
        assert(components(name) == parts);
    }
}

proof fn lemma_some_excluded(a: Seq<Component>, b: Seq<Component>)
    ensures
        (exists|i: int| 0 <= i < (a + b).len() && excluded_component(#[trigger] (a + b)[i])) <==> (
        exists|i: int| 0 <= i < a.len() && excluded_component(#[trigger] a[i])) || (exists|i: int|
            0 <= i < b.len() && excluded_component(#[trigger] b[i])),
{
    let s = a + b;
    if exists|i: int| 0 <= i < s.len() && excluded_component(#[trigger] s[i]) {
        let i = choose|i: int| 0 <= i < s.len() && excluded_component(#[trigger] s[i]);
        if i < a.len() {
            assert(excluded_component(a[i]));
        } else {
            assert(excluded_component(b[i - a.len()]));
        }
    }
    if exists|i: int| 0 <= i < a.len() && excluded_component(#[trigger] a[i]) {
        let i = choose|i: int| 0 <= i < a.len() && excluded_component(#[trigger] a[i]);
        assert(excluded_component(s[i]));
    }
    if exists|i: int| 0 <= i < b.len() && excluded_component(#[trigger] b[i]) {
        let i = choose|i: int| 0 <= i < b.len() && excluded_component(#[trigger] b[i]);
        assert(excluded_component(s[a.len() + i]));
    }
}

/// The character parts the names of a path, with slashes or backslashes.
pub open spec fn parts_names(c: char) -> bool {
    c == '/' || c == '\\'
}

/// A Git directory below the modules of another one is that of a submodule, whatever stands
/// before it and behind it, with slashes or backslashes.
pub proof fn lemma_modules_mark_submodules(
    start: Seq<char>,
    first: char,
    second: char,
    third: char,
    rest: Seq<char>,
)
    requires
        parts_names(first),
        parts_names(second),
        parts_names(third),
    ensures
        submodule_gitdir(
            start + seq![first] + ".git"@ + seq![second] + "modules"@ + seq![third] + rest,
        ),
        submodule_gitdir(".git"@ + seq![second] + "modules"@ + seq![third] + rest),
{
    reveal_strlit(".git");
    reveal_strlit("modules");
    reveal_strlit("/.git/modules/");
    reveal_strlit(".git/modules/");
    let middle = ".git"@ + seq![second] + "modules"@ + seq![third];
    let below = middle + rest;
    let whole = start + seq![first] + below;
    assert(start + seq![first] + ".git"@ + seq![second] + "modules"@ + seq![third] + rest =~= whole);
    let normal = replaced(whole, '\\', '/');
    let n = start.len() as int;
    assert(normal.subrange(n, n + 14) =~= "/.git/modules/"@);
    assert(occurs_at(normal, "/.git/modules/"@, n));
    let other = replaced(below, '\\', '/');
    assert(other.subrange(0, 13) =~= ".git/modules/"@);
}

/// No other Git directory is that of a submodule: with slashes for backslashes it starts with
/// `.git/modules/`, or that stands behind a slash in it.
pub proof fn lemma_only_modules_mark_submodules(gitdir: Seq<char>)
    requires
        submodule_gitdir(gitdir),
    ensures
        ({
            let normal = replaced(gitdir, '\\', '/');
            ||| exists|rest: Seq<char>| normal == #[trigger] (".git/modules/"@ + rest)
            ||| exists|start: Seq<char>, rest: Seq<char>|
                normal == #[trigger] (start + "/.git/modules/"@ + rest)
        }),
{
    let normal = replaced(gitdir, '\\', '/');
    if ".git/modules/"@.is_prefix_of(normal) {
        let k = ".git/modules/"@.len() as int;
        assert(normal.subrange(0, k) == ".git/modules/"@);
        assert(normal =~= ".git/modules/"@ + normal.skip(k));
    } else if contains_text(normal, "/.git/modules/"@) {
        let (a, b) = lemma_parts_of_containing(normal, "/.git/modules/"@);
    } else {
        reveal_strlit("../.git/modules/");
        reveal_strlit("/.git/modules/");
        assert(normal.subrange(0, 16) == "../.git/modules/"@);
        assert(normal =~= "../.git/modules/"@ + normal.skip(16));
        assert(normal =~= ".."@ + "/.git/modules/"@ + normal.skip(16)) by {
            reveal_strlit("..");
            assert("../.git/modules/"@ =~= ".."@ + "/.git/modules/"@);
        }
    }
}

/// A line names a Git directory exactly where it starts with `gitdir:` behind white space. The
/// directory is what follows, without the white space around it.
pub proof fn lemma_gitdir_line(before: Seq<char>, gap: Seq<char>, target: Seq<char>, after: Seq<char>)
    requires
        blank(before),
        blank(gap),
        blank(after),
        solid(target),
    ensures
        gitdir_of_line(before + "gitdir:"@ + gap + target + after) == Some(target),
{
    reveal_strlit("gitdir:");
    let rest = gap + target + after;
    let content = "gitdir:"@ + rest;
    assert(before + "gitdir:"@ + gap + target + after =~= before + content);
    lemma_trimmed_start_of(before, content);
    assert(content.subrange(0, 7) =~= "gitdir:"@);
    assert(content.skip(7) =~= rest);
    lemma_trimmed_between(gap, target, after);
}

/// A line that does not start with `gitdir:` behind white space names no Git directory.
pub proof fn lemma_other_line(before: Seq<char>, rest: Seq<char>)
    requires
        blank(before),
        rest.len() > 0 ==> !white_space(rest.first()),
        !"gitdir:"@.is_prefix_of(rest),
    ensures
        gitdir_of_line(before + rest) is None,
{
    reveal_strlit("gitdir:");
    lemma_trimmed_start_of(before, rest);
}

/// The first line of a `.git` file that names a directory decides whether it marks a submodule.
/// Without such a line, and without a file, there is no mark.
pub proof fn lemma_first_gitdir_decides(line: Seq<char>, rest: Seq<char>)
    requires
        !line.contains('\n'),
        line.len() > 0 ==> line.last() != '\r',
    ensures
        marks_submodule(Some(line + seq!['\n'] + rest)) == match gitdir_of_line(line) {
            Some(target) => submodule_gitdir(target),
            None => marks_submodule(Some(rest)),
        },
        !marks_submodule(None),
        !marks_submodule(Some(Seq::empty())),
{
    lemma_lines_one_by_one(line, rest);
    let lines = seq![line] + text_lines(rest);
    assert(lines.first() == line);
    assert(lines.drop_first() =~= text_lines(rest));
}

/// A directory is declared as a submodule exactly where its path is the root's with a declared
/// path behind it.
pub proof fn lemma_declared(root: Seq<u8>, declared: Seq<Seq<u8>>, path: Seq<u8>)
    ensures
        declared_submodule(root, declared, path) <==> exists|i: int|
            0 <= i < declared.len() && components(path) == components(root) + components(
                #[trigger] declared[i],
            ),
{
    let base = components(root);
    let parts = components(path);
    if declared_submodule(root, declared, path) {
        let i = choose|i: int|
            0 <= i < declared.len() && components(#[trigger] declared[i]) == parts.skip(
                base.len() as int,
            );
        assert(parts.subrange(0, base.len() as int) == base);
        assert(parts =~= base + components(declared[i]));
    }
    if exists|i: int|
        0 <= i < declared.len() && components(path) == components(root) + components(
            #[trigger] declared[i],
        ) {
        let i = choose|i: int|
            0 <= i < declared.len() && components(path) == components(root) + components(
                #[trigger] declared[i],
            );
        assert(parts.subrange(0, base.len() as int) =~= base);
        assert(parts.skip(base.len() as int) =~= components(declared[i]));
    }
}

/// What a walk does with an entry. A file is kept unless its path is excluded. A directory is
/// kept unless its path is excluded, it is declared as a submodule, or, below the root, its
/// `.git` file marks it as one.
pub proof fn lemma_entries(
    root: Seq<u8>,
    declared: Seq<Seq<u8>>,
    path: Seq<u8>,
    git_file: Option<Seq<char>>,
)
    ensures
        entry_kept(root, declared, path, false, git_file) == !excluded(path),
        excluded(path) ==> !entry_kept(root, declared, path, true, git_file),
        declared_submodule(root, declared, path) ==> !entry_kept(
            root,
            declared,
            path,
            true,
            git_file,
        ),
        marks_submodule(git_file) && components(path) != components(root) ==> !entry_kept(
            root,
            declared,
            path,
            true,
            git_file,
        ),
        !excluded(path) && !declared_submodule(root, declared, path) && (!marks_submodule(git_file)
            || components(path) == components(root)) ==> entry_kept(
            root,
            declared,
            path,
            true,
            git_file,
        ),
        submodule_dir(root, declared, path, git_file) <==> declared_submodule(root, declared, path)
            || (marks_submodule(git_file) && components(path) != components(root)),
{
}

/// Bytes are ordered by their first difference, and a start comes before what goes on.
pub proof fn lemma_bytes_order(common: Seq<u8>, x: u8, a: Seq<u8>, y: u8, b: Seq<u8>)
    ensures
        x < y ==> bytes_ordered(common + seq![x] + a, common + seq![y] + b),
        x < y ==> !bytes_ordered(common + seq![y] + b, common + seq![x] + a),
        bytes_ordered(common, common + seq![x] + a),
        !bytes_ordered(common + seq![x] + a, common),
    decreases common.len(),
{
    let p = common + seq![x] + a;
    let q = common + seq![y] + b;
    if common.len() > 0 {
        let rest = common.drop_first();
        lemma_bytes_order(rest, x, a, y, b);
        assert(p.drop_first() =~= rest + seq![x] + a);
        assert(q.drop_first() =~= rest + seq![y] + b);
        assert(p.first() == common.first() && q.first() == common.first());
    } else {
        assert(p.first() == x && q.first() == y);
    }
}

/// The root comes before `.`, that before `..`, and that before every name. Names are ordered
/// by their bytes.
pub proof fn lemma_component_order(a: Seq<u8>, b: Seq<u8>)
    ensures
        component_ordered(Component::RootDir, Component::CurDir),
        !component_ordered(Component::CurDir, Component::RootDir),
        component_ordered(Component::CurDir, Component::ParentDir),
        !component_ordered(Component::ParentDir, Component::CurDir),
        component_ordered(Component::ParentDir, Component::Normal(a)),
        !component_ordered(Component::Normal(a), Component::ParentDir),
        component_ordered(Component::Normal(a), Component::Normal(b)) == bytes_ordered(a, b),
{
}

/// Paths are ordered by their first different component, and a directory comes before what it
/// holds.
pub proof fn lemma_path_order(
    common: Seq<Component>,
    x: Component,
    a: Seq<Component>,
    y: Component,
    b: Seq<Component>,
)
    ensures
        x != y ==> path_ordered(common + seq![x] + a, common + seq![y] + b) == component_ordered(
            x,
            y,
        ),
        path_ordered(common, common + seq![x] + a),
        !path_ordered(common + seq![x] + a, common),
    decreases common.len(),
{
    let p = common + seq![x] + a;
    let q = common + seq![y] + b;
    if common.len() > 0 {
        let rest = common.drop_first();
        lemma_path_order(rest, x, a, y, b);
        assert(p.drop_first() =~= rest + seq![x] + a);
        assert(q.drop_first() =~= rest + seq![y] + b);
        assert(p.first() == common.first() && q.first() == common.first());
    } else {
        assert(p.first() == x && q.first() == y);
    }
}

/// What is reported of a file is a matter of its name and its text, wherever it lies: Markdown
/// is read with its own comments, and the other kinds with those behind `#`.
pub proof fn lemma_reported_by_name(path: Seq<u8>, name: Seq<char>, text: Seq<char>)
    requires
        proper_name(encode_utf8(name)),
        leads_to_name(path, encode_utf8(name)),
    ensures
        lint_findings(path, text) == if ends_in(encode_utf8(name), encode_utf8("md"@)) {
            Some(file_findings(text, true, "<!--"@, "-->"@))
        } else if shell_name(encode_utf8(name)) || build_name(name) || yaml_name(
            encode_utf8(name),
        ) {
            Some(file_findings(text, false, "#"@, ""@))
        } else {
            None
        },
{
    lemma_extensions_by_name(path, encode_utf8(name));
    lemma_comment_style_by_name(path, name);
}

/// Results in order: none comes before another whose path it should follow.
pub proof fn lemma_results_in_order(results: Seq<FileLintResult>, i: int, j: int)
    requires
        in_path_order(results),
        0 <= i <= j < results.len(),
    ensures
        path_ordered(components(results[i].path@), components(results[j].path@)),
{
}

/// A component is seen as what it is.
pub proof fn lemma_component_view(component: PathComponent)
    ensures
        match component {
            PathComponent::RootDir => component@ == Component::RootDir,
            PathComponent::CurDir => component@ == Component::CurDir,
            PathComponent::ParentDir => component@ == Component::ParentDir,
            PathComponent::Normal(name) => component@ == Component::Normal(name@),
        },
{
}

/// Turning one separator into another changes that byte, wherever it stands, and nothing else.
pub proof fn lemma_replaced_bytes(bytes: Seq<u8>, from: u8, to: u8)
    ensures
        replaced_bytes(bytes, from, to).len() == bytes.len(),
        forall|i: int|
            0 <= i < bytes.len() ==> (bytes[i] == from ==> #[trigger] replaced_bytes(
                bytes,
                from,
                to,
            )[i] == to) && (bytes[i] != from ==> replaced_bytes(bytes, from, to)[i] == bytes[i]),
{
}

/// The results for a path are those whose own path has the same components, in their order.
pub proof fn lemma_results_for(
    results: Seq<FileLintResult>,
    more: Seq<FileLintResult>,
    path: Seq<Component>,
)
    ensures
        results_for(results + more, path) == results_for(results, path) + results_for(more, path),
        results.len() == 1 ==> results_for(results, path) == if components(results[0].path@)
            == path {
            results
        } else {
            seq![]
        },
{
    let at_path = |result: FileLintResult| result_path(result) == path;
    Seq::filter_distributes_over_add(results, more, at_path);
    if results.len() == 1 {
        reveal_with_fuel(Seq::filter, 2);
        assert(results.drop_last() =~= Seq::<FileLintResult>::empty());
        assert(results_for(results, path) =~= if components(results[0].path@) == path {
            results
        } else {
            seq![]
        });
    }
}

} // verus!
