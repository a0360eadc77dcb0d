//! Paths as the bytes that the operating system hands out, with `/` between their parts.
//!
//! A path is read by its components: repeated separators, a separator at the end and `.`
//! anywhere but at the start of a relative path do not count. Where the operating system has
//! another separator, `replace_byte` turns it into `/` before a path is read.

use vstd::prelude::*;
use vstd::slice::{slice_subrange, slice_to_vec};
use vstd::utf8::{decode_utf8, valid_utf8};

verus! {

/// A component of a path.
#[derive(Debug)]
pub enum PathComponent {
    RootDir,
    CurDir,
    ParentDir,
    Normal(Vec<u8>),
}

/// A `PathComponent` with its name as a sequence.
pub enum Component {
    RootDir,
    CurDir,
    ParentDir,
    Normal(Seq<u8>),
}

impl View for PathComponent {
    type V = Component;

    open spec fn view(&self) -> Component {
        match self {
            PathComponent::RootDir => Component::RootDir,
            PathComponent::CurDir => Component::CurDir,
            PathComponent::ParentDir => Component::ParentDir,
            PathComponent::Normal(name) => Component::Normal(name@),
        }
    }
}

/// The components that some path components are.
pub open spec fn component_views(parts: Seq<PathComponent>) -> Seq<Component> {
    parts.map_values(|part: PathComponent| part@)
}

/// The byte `/`.
pub const SEPARATOR: u8 = 0x2f;

/// The byte `.`.
pub const DOT: u8 = 0x2e;

/// The first position of `byte`, or the length where there is none.
pub open spec fn first_byte(bytes: Seq<u8>, byte: u8) -> int
    decreases bytes.len(),
{
    if bytes.len() == 0 || bytes.first() == byte {
        0
    } else {
        1 + first_byte(bytes.drop_first(), byte)
    }
}

/// The last position of `byte`, if there is one.
pub open spec fn last_byte(bytes: Seq<u8>, byte: u8) -> Option<int>
    decreases bytes.len(),
{
    if bytes.len() == 0 {
        None
    } else if bytes.last() == byte {
        Some(bytes.len() - 1)
    } else {
        last_byte(bytes.drop_last(), byte)
    }
}

/// The component that stands between two separators, if any; `leading` at the start of the
/// path.
pub open spec fn component_of(piece: Seq<u8>, leading: bool) -> Seq<Component> {
    if piece.len() == 0 {
        seq![]
    } else if piece == seq![DOT] {
        if leading {
            seq![Component::CurDir]
        } else {
            seq![]
        }
    } else if piece == seq![DOT, DOT] {
        seq![Component::ParentDir]
    } else {
        seq![Component::Normal(piece)]
    }
}

/// The components of a path behind its root, or of what is left of it behind a separator.
pub open spec fn relative_components(path: Seq<u8>, leading: bool) -> Seq<Component>
    decreases path.len(),
{
    let end = first_byte(path, SEPARATOR);
    if 0 <= end < path.len() {
        component_of(path.take(end), leading) + relative_components(path.skip(end + 1), false)
    } else {
        component_of(path, leading)
    }
}

/// The components of a path.
pub open spec fn components(path: Seq<u8>) -> Seq<Component> {
    if path.len() > 0 && path.first() == SEPARATOR {
        seq![Component::RootDir] + relative_components(path, true)
    } else {
        relative_components(path, true)
    }
}

/// The name of the file that a path leads to: its last component, unless that is the root,
/// `.` or `..`.
pub open spec fn file_name(path: Seq<u8>) -> Option<Seq<u8>> {
    let parts = components(path);
    if parts.len() > 0 {
        match parts.last() {
            Component::Normal(name) => Some(name),
            _ => None,
        }
    } else {
        None
    }
}

/// What stands behind the last dot of a file name; a dot at its start does not count.
pub open spec fn name_extension(name: Seq<u8>) -> Option<Seq<u8>> {
    match last_byte(name, DOT) {
        Some(i) if i > 0 => Some(name.skip(i + 1)),
        _ => None,
    }
}

/// The extension of the file that a path leads to.
pub open spec fn extension(path: Seq<u8>) -> Option<Seq<u8>> {
    match file_name(path) {
        Some(name) => name_extension(name),
        None => None,
    }
}

/// The file name as text; empty where there is none, or none that is text.
pub open spec fn file_name_text(path: Seq<u8>) -> Seq<char> {
    match file_name(path) {
        Some(name) if valid_utf8(name) => decode_utf8(name),
        _ => seq![],
    }
}

/// A byte with an ASCII letter in lower case.
pub open spec fn lower(byte: u8) -> u8 {
    if 0x41 <= byte <= 0x5a {
        (byte + 0x20) as u8
    } else {
        byte
    }
}

/// Two sequences of bytes differ at most in the case of ASCII letters.
pub open spec fn same_ignoring_case(a: Seq<u8>, b: Seq<u8>) -> bool {
    &&& a.len() == b.len()
    &&& forall|i: int| 0 <= i < a.len() ==> lower(#[trigger] a[i]) == lower(b[i])
}

/// A sequence of bytes comes before or is another in the order by their first difference.
pub open spec fn bytes_ordered(a: Seq<u8>, b: Seq<u8>) -> bool
    decreases a.len(),
{
    if a.len() == 0 {
        true
    } else if b.len() == 0 {
        false
    } else if a.first() == b.first() {
        bytes_ordered(a.drop_first(), b.drop_first())
    } else {
        a.first() < b.first()
    }
}

/// The rank of the kind of a component.
pub open spec fn component_rank(component: Component) -> int {
    match component {
        Component::RootDir => 0,
        Component::CurDir => 1,
        Component::ParentDir => 2,
        Component::Normal(_) => 3,
    }
}

/// A component comes before or is another: by their kinds, and names by their bytes.
pub open spec fn component_ordered(a: Component, b: Component) -> bool {
    match (a, b) {
        (Component::Normal(x), Component::Normal(y)) => bytes_ordered(x, y),
        _ => component_rank(a) <= component_rank(b),
    }
}

/// A path comes before or is another in the order by their first different component.
pub open spec fn path_ordered(a: Seq<Component>, b: Seq<Component>) -> bool
    decreases a.len(),
{
    if a.len() == 0 {
        true
    } else if b.len() == 0 {
        false
    } else if a.first() == b.first() {
        path_ordered(a.drop_first(), b.drop_first())
    } else {
        component_ordered(a.first(), b.first())
    }
}

/// Calls `std::str::from_utf8`, which accepts the bytes that are UTF-8 and no others, and
/// returns the text that they encode.
#[verifier::external_body]
fn call_from_utf8(bytes: &[u8]) -> (text: Option<&str>)
    ensures
        match text {
            Some(s) => valid_utf8(bytes@) && s@ == decode_utf8(bytes@),
            None => !valid_utf8(bytes@),
        },
{
    std::str::from_utf8(bytes).ok()
}

/// What `String::from_utf8_lossy` makes of some bytes: the text that they encode, with a
/// replacement character for each part that is not UTF-8.
pub uninterp spec fn lossy_text(bytes: Seq<u8>) -> Seq<char>;

/// Calls `String::from_utf8_lossy`. The text depends on the bytes alone, and bytes that are
/// UTF-8 give the text that they encode.
#[verifier::external_body]
pub(crate) fn call_from_utf8_lossy(bytes: &[u8]) -> (text: String)
    ensures
        text@ == lossy_text(bytes@),
        valid_utf8(bytes@) ==> text@ == decode_utf8(bytes@),
{
    String::from_utf8_lossy(bytes).into_owned()
}

/// The first position of a byte, or the length where there is none.
fn find_first_byte(bytes: &[u8], byte: u8) -> (r: usize)
    ensures
        r == first_byte(bytes@, byte),
        r <= bytes@.len(),
{
    let n: usize = bytes.len();
    let mut i: usize = 0;
    assert(bytes@.skip(0) == bytes@);
    while i < n && bytes[i] != byte
        invariant
            i <= n == bytes@.len(),
            first_byte(bytes@, byte) == i + first_byte(bytes@.skip(i as int), byte),
        decreases n - i,
    {
        assert(bytes@.skip(i as int).drop_first() == bytes@.skip(i + 1));
        i += 1;
    }
    i
}

/// The last position of a byte, if there is one.
fn find_last_byte(bytes: &[u8], byte: u8) -> (r: Option<usize>)
    ensures
        match r {
            Some(i) => last_byte(bytes@, byte) == Some(i as int) && i < bytes@.len(),
            None => last_byte(bytes@, byte) is None,
        },
{
    let mut n: usize = bytes.len();
    assert(bytes@.take(n as int) == bytes@);
    while n > 0
        invariant
            n <= bytes@.len(),
            last_byte(bytes@, byte) == last_byte(bytes@.take(n as int), byte),
        decreases n,
    {
        if bytes[n - 1] == byte {
            return Some(n - 1);
        }
        assert(bytes@.take(n as int).drop_last() == bytes@.take(n - 1));
        n -= 1;
    }
    None
}

/// Whether two sequences of bytes are the same.
pub fn same_bytes(a: &[u8], b: &[u8]) -> (r: bool)
    ensures
        r == (a@ == b@),
{
    if a.len() != b.len() {
        return false;
    }
    for i in 0..a.len()
        invariant
            a@.len() == b@.len(),
            forall|j: int| 0 <= j < i ==> a@[j] == b@[j],
    {
        if a[i] != b[i] {
            return false;
        }
    }
    assert(a@ =~= b@);
    true
}

/// A byte with an ASCII letter in lower case.
fn to_lower(byte: u8) -> (r: u8)
    ensures
        r == lower(byte),
{
    if 0x41 <= byte && byte <= 0x5a {
        byte + 0x20
    } else {
        byte
    }
}

/// Whether two sequences of bytes differ at most in the case of ASCII letters.
pub fn equal_ignoring_case(a: &[u8], b: &[u8]) -> (r: bool)
    ensures
        r == same_ignoring_case(a@, b@),
{
    if a.len() != b.len() {
        return false;
    }
    for i in 0..a.len()
        invariant
            a@.len() == b@.len(),
            forall|j: int| 0 <= j < i ==> lower(#[trigger] a@[j]) == lower(b@[j]),
    {
        if to_lower(a[i]) != to_lower(b[i]) {
            return false;
        }
    }
    true
}

/// `bytes` with each `from` replaced by `to`.
pub open spec fn replaced_bytes(bytes: Seq<u8>, from: u8, to: u8) -> Seq<u8> {
    bytes.map_values(|byte: u8| if byte == from { to } else { byte })
}

/// `bytes` with each `from` replaced by `to`.
pub fn replace_byte(bytes: &[u8], from: u8, to: u8) -> (r: Vec<u8>)
    ensures
        r@ == replaced_bytes(bytes@, from, to),
{
    let mut r: Vec<u8> = Vec::new();
    for i in 0..bytes.len()
        invariant
            r@.len() == i,
            forall|j: int| 0 <= j < i ==> r@[j] == replaced_bytes(bytes@, from, to)[j],
    {
        if bytes[i] == from {
            r.push(to);
        } else {
            r.push(bytes[i]);
        }
    }
    assert(r@ =~= replaced_bytes(bytes@, from, to));
    r
}

/// Adds the component that stands between two separators, if any.
fn push_component(parts: &mut Vec<PathComponent>, piece: &[u8], leading: bool)
    ensures
        component_views(final(parts)@) == component_views(old(parts)@) + component_of(
            piece@,
            leading,
        ),
{
    let ghost before = parts@;
    if piece.len() == 0 {
    } else if piece.len() == 1 && piece[0] == DOT {
        assert(piece@ =~= seq![DOT]);
        if leading {
            parts.push(PathComponent::CurDir);
        }
    } else if piece.len() == 2 && piece[0] == DOT && piece[1] == DOT {
        assert(piece@ =~= seq![DOT, DOT]);
        parts.push(PathComponent::ParentDir);
    } else {
        parts.push(PathComponent::Normal(slice_to_vec(piece)));
    }
    assert(component_views(parts@) =~= component_views(before) + component_of(piece@, leading));
}

/// The components of a path.
pub fn split_components(path: &[u8]) -> (parts: Vec<PathComponent>)
    ensures
        component_views(parts@) == components(path@),
{
    let n: usize = path.len();
    let mut parts: Vec<PathComponent> = Vec::new();
    if n > 0 && path[0] == SEPARATOR {
        parts.push(PathComponent::RootDir);
    }
    let ghost root = component_views(parts@);
    assert(root =~= if n > 0 && path@.first() == SEPARATOR {
        seq![Component::RootDir]
    } else {
        seq![]
    });
    let mut start: usize = 0;
    assert(path@.skip(0) == path@);
    loop
        invariant_except_break
            root + relative_components(path@, true) == component_views(parts@)
                + relative_components(path@.skip(start as int), start == 0),
        invariant
            start <= n == path@.len(),
        ensures
            component_views(parts@) == root + relative_components(path@, true),
        decreases n - start,
    {
        let rest = slice_subrange(path, start, n);
        assert(rest@ == path@.skip(start as int));
        let end = find_first_byte(rest, SEPARATOR);
        let ghost before = component_views(parts@);
        if end < rest.len() {
            let piece = slice_subrange(rest, 0, end);
            push_component(&mut parts, piece, start == 0);
            assert(piece@ == rest@.take(end as int));
            assert(rest@.skip(end + 1) == path@.skip(start + end + 1));
            assert(before + (component_of(piece@, start == 0) + relative_components(
                rest@.skip(end + 1),
                false,
            )) =~= component_views(parts@) + relative_components(rest@.skip(end + 1), false));
            start = start + end + 1;
        } else {
            push_component(&mut parts, rest, start == 0);
            break;
        }
    }
    assert(root + relative_components(path@, true) =~= components(path@));
    parts
}

/// The name of the file that a path leads to.
pub fn take_file_name(path: &[u8]) -> (name: Option<Vec<u8>>)
    ensures
        match name {
            Some(bytes) => file_name(path@) == Some(bytes@),
            None => file_name(path@) is None,
        },
{
    let mut parts = split_components(path);
    let ghost all = parts@;
    match parts.pop() {
        Some(last) => {
            assert(component_views(all).last() == last@);
            match last {
                PathComponent::Normal(name) => Some(name),
                _ => None,
            }
        },
        None => None,
    }
}

/// The extension of the file that a path leads to.
pub fn take_extension(path: &[u8]) -> (r: Option<Vec<u8>>)
    ensures
        match r {
            Some(bytes) => extension(path@) == Some(bytes@),
            None => extension(path@) is None,
        },
{
    let name = match take_file_name(path) {
        Some(name) => name,
        None => return None,
    };
    let n: usize = name.len();
    match find_last_byte(name.as_slice(), DOT) {
        Some(i) => if i > 0 {
            assert(name@.subrange(i + 1, n as int) == name@.skip(i + 1));
            Some(slice_to_vec(slice_subrange(name.as_slice(), i + 1, n)))
        } else {
            None
        },
        None => None,
    }
}

/// The file name as text; empty where there is none, or none that is text.
pub fn take_file_name_text(path: &[u8]) -> (text: String)
    ensures
        text@ == file_name_text(path@),
{
    match take_file_name(path) {
        Some(name) => match call_from_utf8(name.as_slice()) {
            Some(text) => text.to_string(),
            None => String::new(),
        },
        None => String::new(),
    }
}

/// Whether the extension of the file that a path leads to is the given one, whatever the
/// case of its ASCII letters.
pub open spec fn extension_is(path: Seq<u8>, wanted: Seq<u8>) -> bool {
    match extension(path) {
        Some(found) => same_ignoring_case(found, wanted),
        None => false,
    }
}

/// Whether two components are the same.
fn same_component(a: &PathComponent, b: &PathComponent) -> (r: bool)
    ensures
        r == (a@ == b@),
{
    match (a, b) {
        (PathComponent::RootDir, PathComponent::RootDir) => true,
        (PathComponent::CurDir, PathComponent::CurDir) => true,
        (PathComponent::ParentDir, PathComponent::ParentDir) => true,
        (PathComponent::Normal(x), PathComponent::Normal(y)) => same_bytes(
            x.as_slice(),
            y.as_slice(),
        ),
        _ => false,
    }
}

/// Whether two sequences of components are the same.
pub fn same_components(a: &[PathComponent], b: &[PathComponent]) -> (r: bool)
    ensures
        r == (component_views(a@) == component_views(b@)),
{
    let ghost x = component_views(a@);
    let ghost y = component_views(b@);
    if a.len() != b.len() {
        assert(x.len() != y.len());
        return false;
    }
    for i in 0..a.len()
        invariant
            x == component_views(a@),
            y == component_views(b@),
            a@.len() == b@.len(),
            forall|j: int| 0 <= j < i ==> x[j] == y[j],
    {
        if !same_component(&a[i], &b[i]) {
            assert(x[i as int] != y[i as int]);
            return false;
        }
    }
    assert(x =~= y);
    true
}

/// Whether a sequence of bytes comes before or is another.
fn are_bytes_ordered(a: &[u8], b: &[u8]) -> (r: bool)
    ensures
        r == bytes_ordered(a@, b@),
{
    let mut i: usize = 0;
    assert(a@.skip(0) == a@ && b@.skip(0) == b@);
    while i < a.len() && i < b.len() && a[i] == b[i]
        invariant
            i <= a@.len(),
            i <= b@.len(),
            bytes_ordered(a@, b@) == bytes_ordered(a@.skip(i as int), b@.skip(i as int)),
        decreases a@.len() - i,
    {
        assert(a@.skip(i as int).drop_first() == a@.skip(i + 1));
        assert(b@.skip(i as int).drop_first() == b@.skip(i + 1));
        i += 1;
    }
    if i == a.len() {
        true
    } else if i == b.len() {
        false
    } else {
        a[i] < b[i]
    }
}

/// The rank of the kind of a component.
fn rank(component: &PathComponent) -> (r: u8)
    ensures
        r == component_rank(component@),
{
    match component {
        PathComponent::RootDir => 0,
        PathComponent::CurDir => 1,
        PathComponent::ParentDir => 2,
        PathComponent::Normal(_) => 3,
    }
}

/// Whether a component comes before or is another.
fn are_components_ordered(a: &PathComponent, b: &PathComponent) -> (r: bool)
    ensures
        r == component_ordered(a@, b@),
{
    match (a, b) {
        (PathComponent::Normal(x), PathComponent::Normal(y)) => are_bytes_ordered(
            x.as_slice(),
            y.as_slice(),
        ),
        _ => rank(a) <= rank(b),
    }
}

/// Whether a path comes before or is another.
pub fn are_paths_ordered(a: &[PathComponent], b: &[PathComponent]) -> (r: bool)
    ensures
        r == path_ordered(component_views(a@), component_views(b@)),
{
    let ghost x = component_views(a@);
    let ghost y = component_views(b@);
    let mut i: usize = 0;
    assert(x.skip(0) == x && y.skip(0) == y);
    while i < a.len() && i < b.len() && same_component(&a[i], &b[i])
        invariant
            x == component_views(a@),
            y == component_views(b@),
            i <= a@.len(),
            i <= b@.len(),
            path_ordered(x, y) == path_ordered(x.skip(i as int), y.skip(i as int)),
        decreases a@.len() - i,
    {
        assert(x.skip(i as int).first() == a@[i as int]@);
        assert(y.skip(i as int).first() == b@[i as int]@);
        assert(x.skip(i as int).drop_first() == x.skip(i + 1));
        assert(y.skip(i as int).drop_first() == y.skip(i + 1));
        i += 1;
    }
    if i == a.len() {
        true
    } else if i == b.len() {
        false
    } else {
        assert(x.skip(i as int).first() == a@[i as int]@);
        assert(y.skip(i as int).first() == b@[i as int]@);
        are_components_ordered(&a[i], &b[i])
    }
}

/// Sequences of bytes are totally ordered.
proof fn lemma_bytes_total(a: Seq<u8>, b: Seq<u8>)
    ensures
        bytes_ordered(a, b) || bytes_ordered(b, a),
        bytes_ordered(a, b) && bytes_ordered(b, a) ==> a == b,
        bytes_ordered(a, a),
    decreases a.len(),
{
    if a.len() > 0 {
        lemma_bytes_total(a.drop_first(), a.drop_first());
        if b.len() > 0 && a.first() == b.first() {
            lemma_bytes_total(a.drop_first(), b.drop_first());
            if a.drop_first() == b.drop_first() {
                assert(a =~= seq![a.first()] + a.drop_first());
                assert(b =~= seq![b.first()] + b.drop_first());
            }
        }
    } else if b.len() == 0 {
        assert(a =~= b);
    }
}

proof fn lemma_bytes_transitive(a: Seq<u8>, b: Seq<u8>, c: Seq<u8>)
    requires
        bytes_ordered(a, b),
        bytes_ordered(b, c),
    ensures
        bytes_ordered(a, c),
    decreases a.len(),
{
    if a.len() > 0 && b.len() > 0 && c.len() > 0 && a.first() == b.first() && b.first()
        == c.first() {
        lemma_bytes_transitive(a.drop_first(), b.drop_first(), c.drop_first());
    }
}

proof fn lemma_components_total(a: Component, b: Component)
    ensures
        component_ordered(a, b) || component_ordered(b, a),
        component_ordered(a, b) && component_ordered(b, a) ==> a == b,
{
    if let (Component::Normal(x), Component::Normal(y)) = (a, b) {
        lemma_bytes_total(x, y);
    }
}

proof fn lemma_components_transitive(a: Component, b: Component, c: Component)
    requires
        component_ordered(a, b),
        component_ordered(b, c),
    ensures
        component_ordered(a, c),
{
    if let (Component::Normal(x), Component::Normal(y), Component::Normal(z)) = (a, b, c) {
        lemma_bytes_transitive(x, y, z);
    }
}

/// Any two paths are ordered, one way or the other, and both ways only where they have the
/// same components.
pub proof fn lemma_path_order_total(a: Seq<Component>, b: Seq<Component>)
    ensures
        path_ordered(a, b) || path_ordered(b, a),
        path_ordered(a, b) && path_ordered(b, a) <==> a == b,
    decreases a.len(),
{
    if a.len() > 0 && b.len() > 0 {
        if a.first() == b.first() {
            lemma_path_order_total(a.drop_first(), b.drop_first());
            if a.drop_first() == b.drop_first() {
                assert(a =~= seq![a.first()] + a.drop_first());
                assert(b =~= seq![b.first()] + b.drop_first());
            }
        } else {
            lemma_components_total(a.first(), b.first());
        }
    } else if a.len() == 0 && b.len() == 0 {
        assert(a =~= b);
    }
}

/// The order of paths is transitive.
pub proof fn lemma_path_order_transitive(a: Seq<Component>, b: Seq<Component>, c: Seq<Component>)
    requires
        path_ordered(a, b),
        path_ordered(b, c),
    ensures
        path_ordered(a, c),
    decreases a.len(),
{
    if a.len() > 0 && b.len() > 0 && c.len() > 0 {
        if a.first() == b.first() && b.first() == c.first() {
            lemma_path_order_transitive(a.drop_first(), b.drop_first(), c.drop_first());
        } else if a.first() != b.first() && b.first() != c.first() {
            lemma_components_transitive(a.first(), b.first(), c.first());
            if a.first() == c.first() {
                lemma_components_total(a.first(), b.first());
            }
        }
    }
}

/// `base` and `rest` with a separator between them.
pub open spec fn joined(base: Seq<u8>, rest: Seq<u8>) -> Seq<u8> {
    base + seq![SEPARATOR] + rest
}

proof fn lemma_first_byte_joined(base: Seq<u8>, rest: Seq<u8>)
    ensures
        first_byte(joined(base, rest), SEPARATOR) == first_byte(base, SEPARATOR),
        0 <= first_byte(base, SEPARATOR) <= base.len(),
    decreases base.len(),
{
    let whole = joined(base, rest);
    if base.len() > 0 {
        assert(whole.first() == base.first());
        if base.first() != SEPARATOR {
            assert(whole.drop_first() =~= joined(base.drop_first(), rest));
            lemma_first_byte_joined(base.drop_first(), rest);
        }
    } else {
        assert(whole.first() == SEPARATOR);
    }
}

proof fn lemma_relative_components_joined(base: Seq<u8>, rest: Seq<u8>, leading: bool)
    ensures
        relative_components(joined(base, rest), leading) == relative_components(base, leading)
            + relative_components(rest, false),
    decreases base.len(),
{
    let whole = joined(base, rest);
    let end = first_byte(base, SEPARATOR);
    lemma_first_byte_joined(base, rest);
    if end < base.len() {
        assert(whole.take(end) =~= base.take(end));
        assert(whole.skip(end + 1) =~= joined(base.skip(end + 1), rest));
        lemma_relative_components_joined(base.skip(end + 1), rest, false);
        assert(relative_components(whole, leading) =~= relative_components(base, leading)
            + relative_components(rest, false));
    } else {
        assert(whole.take(end) =~= base);
        assert(whole.skip(end + 1) =~= rest);
    }
}

/// A path below another starts with the components of that one. So a separator at the end
/// of a path does not count.
pub proof fn lemma_components_joined(base: Seq<u8>, rest: Seq<u8>)
    requires
        base.len() > 0,
    ensures
        components(joined(base, rest)) == components(base) + relative_components(rest, false),
        components(joined(base, Seq::empty())) == components(base),
{
    lemma_relative_components_joined(base, rest, true);
    lemma_relative_components_joined(base, Seq::empty(), true);
    assert(components(joined(base, rest)) =~= components(base) + relative_components(rest, false));
    assert(components(joined(base, Seq::empty())) =~= components(base));
}

} // verus!
