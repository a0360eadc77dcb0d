//! Which files are checked, and how comments are written in them.

use vstd::prelude::*;
use vstd::slice::slice_subrange;
use vstd::utf8::encode_utf8;

use crate::directives::CommentStyle;
use crate::path::{
    component_views, components, equal_ignoring_case, extension_is, file_name_text, joined,
    lemma_components_joined, same_bytes, split_components, take_extension, take_file_name_text,
    Component, PathComponent,
};
use crate::text::{ends_with, same_text, starts_with, to_chars};

verus! {

/// The names of directories whose content is generated or comes from elsewhere.
pub open spec fn excluded_name(name: Seq<u8>) -> bool {
    ||| name == encode_utf8("node_modules"@)
    ||| name == encode_utf8(".git"@)
    ||| name == encode_utf8("target"@)
    ||| name == encode_utf8("dist"@)
    ||| name == encode_utf8("build"@)
    ||| name == encode_utf8("coverage"@)
    ||| name == encode_utf8("vendor"@)
    ||| name == encode_utf8(".next"@)
    ||| name == encode_utf8(".nuxt"@)
    ||| name == encode_utf8(".turbo"@)
    ||| name == encode_utf8(".cache"@)
}

/// The component is the name of an excluded directory.
pub open spec fn excluded_component(component: Component) -> bool {
    match component {
        Component::Normal(name) => excluded_name(name),
        _ => false,
    }
}

/// A path leads to or through an excluded directory.
pub open spec fn excluded(path: Seq<u8>) -> bool {
    exists|i: int|
        0 <= i < components(path).len() && excluded_component(#[trigger] components(path)[i])
}

/// The path has the extension, whatever the case of its ASCII letters.
pub open spec fn extension_named(path: Seq<u8>, wanted: Seq<char>) -> bool {
    extension_is(path, encode_utf8(wanted))
}

/// The file is a shell script.
pub open spec fn shell_file(path: Seq<u8>) -> bool {
    ||| extension_named(path, "sh"@)
    ||| extension_named(path, "bash"@)
    ||| extension_named(path, "zsh"@)
    ||| extension_named(path, "fish"@)
    ||| extension_named(path, "ksh"@)
    ||| extension_named(path, "csh"@)
}

/// A file of that name is a makefile.
pub open spec fn makefile_name(name: Seq<char>) -> bool {
    ||| name == "Makefile"@
    ||| name == "makefile"@
    ||| name == "GNUmakefile"@
    ||| extension_named(encode_utf8(name), "mk"@)
}

/// A file of that name is a Dockerfile.
pub open spec fn dockerfile_name(name: Seq<char>) -> bool {
    ||| "Dockerfile"@.is_prefix_of(name)
    ||| ".dockerfile"@.is_suffix_of(name)
}

/// The file is written in YAML.
pub open spec fn yaml_file(path: Seq<u8>) -> bool {
    extension_named(path, "yml"@) || extension_named(path, "yaml"@)
}

/// The bytes `part` stand somewhere in `bytes`.
pub open spec fn contains_bytes(bytes: Seq<u8>, part: Seq<u8>) -> bool {
    exists|i: int|
        0 <= i <= bytes.len() - part.len() && #[trigger] bytes.subrange(i, i + part.len()) == part
}

/// The file is one that is checked.
pub open spec fn checked_file(path: Seq<u8>) -> bool {
    let name = file_name_text(path);
    ||| makefile_name(name)
    ||| dockerfile_name(name)
    ||| extension_named(path, "md"@)
    ||| shell_file(path)
    ||| yaml_file(path) && contains_bytes(path, encode_utf8(".github/workflows"@))
}

/// How comments open and close in the file.
pub open spec fn comment_style(path: Seq<u8>) -> Option<(Seq<char>, Seq<char>)> {
    let name = file_name_text(path);
    if extension_named(path, "md"@) {
        Some(("<!--"@, "-->"@))
    } else if shell_file(path) || makefile_name(name) || yaml_file(path) || dockerfile_name(name) {
        Some(("#"@, ""@))
    } else {
        None
    }
}

/// Whether a directory's content is generated or comes from elsewhere.
fn is_excluded_name(name: &[u8]) -> (r: bool)
    ensures
        r == excluded_name(name@),
{
    same_bytes(name, "node_modules".as_bytes()) || same_bytes(name, ".git".as_bytes())
        || same_bytes(name, "target".as_bytes()) || same_bytes(name, "dist".as_bytes())
        || same_bytes(name, "build".as_bytes()) || same_bytes(name, "coverage".as_bytes())
        || same_bytes(name, "vendor".as_bytes()) || same_bytes(name, ".next".as_bytes())
        || same_bytes(name, ".nuxt".as_bytes()) || same_bytes(name, ".turbo".as_bytes())
        || same_bytes(name, ".cache".as_bytes())
}

/// Whether a path leads to or through an excluded directory.
pub fn is_excluded(path: &[u8]) -> (r: bool)
    ensures
        r == excluded(path@),
{
    let parts = split_components(path);
    let ghost all = components(path@);
    for i in 0..parts.len()
        invariant
            all == components(path@),
            component_views(parts@) == all,
            forall|j: int| 0 <= j < i ==> !excluded_component(#[trigger] all[j]),
    {
        assert(all[i as int] == parts@[i as int]@);
        if let PathComponent::Normal(name) = &parts[i] {
            if is_excluded_name(name.as_slice()) {
                assert(excluded_component(components(path@)[i as int]));
                return true;
            }
        }
    }
    false
}

/// Whether a path has an extension, whatever the case of its ASCII letters.
pub fn has_extension(path: &[u8], extension: &str) -> (r: bool)
    ensures
        r == extension_named(path@, extension@),
{
    match take_extension(path) {
        Some(found) => equal_ignoring_case(found.as_slice(), extension.as_bytes()),
        None => false,
    }
}

/// Whether a file is a shell script.
pub fn is_shell_file(path: &[u8]) -> (r: bool)
    ensures
        r == shell_file(path@),
{
    has_extension(path, "sh") || has_extension(path, "bash") || has_extension(path, "zsh")
        || has_extension(path, "fish") || has_extension(path, "ksh") || has_extension(path, "csh")
}

/// Whether a file of that name is a makefile.
pub fn is_makefile(file_name: &str) -> (r: bool)
    ensures
        r == makefile_name(file_name@),
{
    let name = to_chars(file_name);
    same_text(name.as_slice(), "Makefile") || same_text(name.as_slice(), "makefile") || same_text(
        name.as_slice(),
        "GNUmakefile",
    ) || has_extension(file_name.as_bytes(), "mk")
}

/// Whether a file of that name is a Dockerfile.
fn is_dockerfile(file_name: &str) -> (r: bool)
    ensures
        r == dockerfile_name(file_name@),
{
    let name = to_chars(file_name);
    starts_with(name.as_slice(), "Dockerfile") || ends_with(name.as_slice(), ".dockerfile")
}

/// Whether the bytes `part` stand somewhere in `bytes`.
fn holds_bytes(bytes: &[u8], part: &[u8]) -> (r: bool)
    ensures
        r == contains_bytes(bytes@, part@),
{
    let n: usize = bytes.len();
    let k: usize = part.len();
    if k > n {
        return false;
    }
    let mut i: usize = 0;
    while i <= n - k
        invariant
            k <= n == bytes@.len(),
            k == part@.len(),
            i <= n - k + 1,
            forall|j: int| 0 <= j < i ==> #[trigger] bytes@.subrange(j, j + k) != part@,
        decreases n - k + 1 - i,
    {
        if same_bytes(slice_subrange(bytes, i, i + k), part) {
            return true;
        }
        if i == n - k {
            return false;
        }
        i += 1;
    }
    false
}

/// Whether a file is one that is checked: a makefile, a Dockerfile, Markdown, a shell
/// script, or a GitHub Actions workflow.
pub fn should_check_file(path: &[u8]) -> (r: bool)
    ensures
        r == checked_file(path@),
{
    let file_name = take_file_name_text(path);
    is_makefile(file_name.as_str()) || is_dockerfile(file_name.as_str()) || has_extension(
        path,
        "md",
    ) || is_shell_file(path) || ((has_extension(path, "yml") || has_extension(path, "yaml"))
        && holds_bytes(path, ".github/workflows".as_bytes()))
}

/// How comments are written in a file; `None` for a file of another kind.
pub fn comment_style_for_file(path: &[u8]) -> (style: Option<CommentStyle>)
    ensures
        match style {
            Some(s) => comment_style(path@) == Some((s.prefix@, s.suffix@)),
            None => comment_style(path@) is None,
        },
{
    if has_extension(path, "md") {
        return Some(CommentStyle { prefix: "<!--", suffix: "-->" });
    }
    let file_name = take_file_name_text(path);
    if is_shell_file(path) || is_makefile(file_name.as_str()) || has_extension(path, "yml")
        || has_extension(path, "yaml") || is_dockerfile(file_name.as_str()) {
        return Some(CommentStyle { prefix: "#", suffix: "" });
    }
    None
}

/// Every file that is checked is of a kind whose comments are known.
pub proof fn lemma_checked_file_has_comment_style(path: Seq<u8>)
    requires
        checked_file(path),
    ensures
        comment_style(path) is Some,
{
}

/// Everything below an excluded directory is excluded.
pub proof fn lemma_excluded_below(path: Seq<u8>, rest: Seq<u8>)
    requires
        excluded(path),
    ensures
        excluded(joined(path, rest)),
{
    let below = components(joined(path, rest));
    let i = choose|i: int|
        0 <= i < components(path).len() && excluded_component(#[trigger] components(path)[i]);
    if path.len() == 0 {
        assert(components(path).len() == 0);
    }
    lemma_components_joined(path, rest);
    assert(below[i] == components(path)[i]);
}

/// Two ways to write a path with the same components are excluded alike.
pub proof fn lemma_excluded_by_components(a: Seq<u8>, b: Seq<u8>)
    requires
        components(a) == components(b),
    ensures
        excluded(a) == excluded(b),
{
}

} // verus!
