//! Paths as the sequence of their components' names, the way
//! `Path::components` yields them, and the path questions the pipeline asks:
//! file name, extension, parent, join and prefix.

use crate::key::{key, keys_view, Chunk};
use crate::order::path_key;
use crate::text::{ascii_lower, ascii_lower_char, lower_ascii_char, push_char};
use vstd::prelude::*;

verus! {

/// A path, held as the names of its components in order; a root component is
/// written `/` (or `\` on Windows).
#[derive(Debug, Clone, PartialEq, Eq)]
pub struct PathParts {
    pub parts: Vec<String>,
}

impl View for PathParts {
    type V = Seq<Seq<char>>;

    open spec fn view(&self) -> Seq<Seq<char>> {
        self.parts.deep_view()
    }
}

/// The pieces of `s` between the `/` characters (one more than there are
/// slashes).
pub open spec fn segments(s: Seq<char>) -> Seq<Seq<char>>
    decreases s.len(),
{
    if s.len() == 0 {
        seq![Seq::<char>::empty()]
    } else {
        let prev = segments(s.drop_last());
        if s.last() == '/' {
            prev.push(Seq::<char>::empty())
        } else {
            prev.drop_last().push(prev.last().push(s.last()))
        }
    }
}

/// `c` is an ASCII letter.
pub open spec fn is_ascii_letter(c: char) -> bool {
    ('a' <= c && c <= 'z') || ('A' <= c && c <= 'Z')
}

/// A path written with `/` as its only separator that no platform reads a
/// prefix into: it holds no `\`, does not start with an ASCII letter and a
/// `:` (a drive on Windows), and does not start with two separators.
pub open spec fn portable(s: Seq<char>) -> bool {
    &&& forall|i: int| 0 <= i < s.len() ==> #[trigger] s[i] != '\\'
    &&& !(s.len() >= 2 && is_ascii_letter(s[0]) && s[1] == ':')
    &&& !(s.len() >= 2 && s[0] == '/' && s[1] == '/')
}

/// The names among the pieces of a path: empty pieces (from repeated or
/// trailing separators) and `.` are dropped.
pub open spec fn kept_names(segs: Seq<Seq<char>>) -> Seq<Seq<char>> {
    segs.filter(|g: Seq<char>| g.len() > 0 && g != seq!['.'])
}

/// The components of a portable relative path: `.` first when the path
/// starts with it, then its names (`..` included).
pub open spec fn relative_components(s: Seq<char>) -> Seq<Seq<char>> {
    if segments(s)[0] == seq!['.'] {
        seq![seq!['.']] + kept_names(segments(s))
    } else {
        kept_names(segments(s))
    }
}

/// The text holds neither `/` nor `\`.
pub open spec fn no_separator(s: Seq<char>) -> bool {
    forall|i: int| 0 <= i < s.len() ==> #[trigger] s[i] != '/' && s[i] != '\\'
}

/// The components of a path as std documents them. A portable path that
/// starts with `/` has a root component (`/`, or `\` on Windows) and then
/// the names after it; any other portable path has its relative components.
/// A text without separators that makes a single component (on Windows a
/// drive such as `A:` alone makes one, `A:B` makes two) is that component.
pub open spec fn components_of(path: Seq<char>, parts: Seq<Seq<char>>) -> bool {
    &&& portable(path) ==> if path.len() > 0 && path[0] == '/' {
        &&& parts.len() >= 1
        &&& is_root(parts[0])
        &&& parts.skip(1) == kept_names(segments(path.skip(1)))
    } else {
        parts == relative_components(path)
    }
    &&& no_separator(path) && parts.len() == 1 ==> parts[0] == path
}

/// Calls `Path::components` and turns each component into a `String`
/// (`to_string_lossy`). Of a portable path (see `portable`) it states what
/// std documents: repeated separators and a trailing one are ignored, `.` is
/// dropped except at the start of the path, `..` stays, and a leading `/` is
/// a root component, written `/` (or `\` on Windows). Of paths with `\`, a
/// drive letter or a leading `//`, whose reading depends on the platform,
/// one thing is stated: a text without `/` and `\` that yields a single
/// component yields the text itself (std reads no prefix out of such a text
/// but a drive, and a drive alone is one component).
#[verifier::external_body]
fn path_components(path: &str) -> (r: Vec<String>)
    ensures
        components_of(path@, r.deep_view()),
{
    std::path::Path::new(path).components().map(
        |c| c.as_os_str().to_string_lossy().into_owned(),
    ).collect()
}

impl PathParts {
    /// Splits a path into its components.
    pub fn parse(path: &str) -> (r: PathParts)
        ensures
            components_of(path@, r@),
    {
        PathParts { parts: path_components(path) }
    }

    /// A copy of the path.
    pub fn duplicate(&self) -> (r: PathParts)
        ensures
            r@ == self@,
    {
        let parts = self.parts.clone();
        proof {
            assert(parts.deep_view() =~= self.parts.deep_view());
        }
        PathParts { parts }
    }
}

/// What `single_component` answers for `path`: for a portable relative path
/// its one component, or nothing when it has none or several; for a portable
/// path starting with `/`, the root when nothing follows it, else nothing;
/// for a text without separators, the text itself or nothing (`A:B` is one
/// component on Unix, a drive and a name on Windows).
pub open spec fn single_component_of(path: Seq<char>, r: Option<Seq<char>>) -> bool {
    &&& portable(path) && !(path.len() > 0 && path[0] == '/') ==> r == if relative_components(
        path,
    ).len() == 1 {
        Some(relative_components(path)[0])
    } else {
        None
    }
    &&& portable(path) && path.len() > 0 && path[0] == '/' ==> {
        &&& (r is Some) == (kept_names(segments(path.skip(1))).len() == 0)
        &&& r matches Some(c) ==> is_root(c)
    }
    &&& no_separator(path) ==> r is None || r == Some(path)
}

/// The one component of `path`, if `Path::components` yields exactly one.
pub fn single_component(path: &str) -> (r: Option<String>)
    ensures
        single_component_of(
            path@,
            match r {
                Some(c) => Some(c@),
                None => None,
            },
        ),
{
    let mut parts = path_components(path);
    if parts.len() == 1 {
        let ghost all = parts.deep_view();
        let c = parts.pop();
        proof {
            if portable(path@) && path@.len() > 0 && path@[0] == '/' {
                assert(all.skip(1) =~= Seq::<Seq<char>>::empty());
            }
        }
        c
    } else {
        proof {
            let all = parts.deep_view();
            if portable(path@) && path@.len() > 0 && path@[0] == '/' {
                assert(all.skip(1).len() == all.len() - 1);
            }
        }
        None
    }
}

/// A component that is a root.
pub open spec fn is_root(part: Seq<char>) -> bool {
    part == seq!['/'] || part == seq!['\\']
}

/// A component that names a file or folder.
pub open spec fn is_name(part: Seq<char>) -> bool {
    &&& part.len() > 0
    &&& !is_root(part)
    &&& part != seq!['.']
    &&& part != seq!['.', '.']
}

/// The file name: the last component, when it is a name.
pub open spec fn file_name_of(path: Seq<Seq<char>>) -> Option<Seq<char>> {
    if path.len() > 0 && is_name(path.last()) {
        Some(path.last())
    } else {
        None
    }
}

/// The index of the last `.` in `s`, or -1.
pub open spec fn last_dot(s: Seq<char>) -> int
    decreases s.len(),
{
    if s.len() == 0 {
        -1
    } else if s.last() == '.' {
        s.len() - 1
    } else {
        last_dot(s.drop_last())
    }
}

/// What follows the last `.` of a file name, unless that dot is the first
/// character (a hidden file has no extension).
pub open spec fn extension_of_name(name: Seq<char>) -> Option<Seq<char>> {
    if last_dot(name) > 0 {
        Some(name.skip(last_dot(name) + 1))
    } else {
        None
    }
}

/// The extension of a path (`Path::extension`).
pub open spec fn extension_of(path: Seq<Seq<char>>) -> Option<Seq<char>> {
    match file_name_of(path) {
        Some(name) => extension_of_name(name),
        None => None,
    }
}

/// `path` has an extension that, lower-cased in ASCII, is one of `allowed`.
pub open spec fn has_extension_in(path: Seq<Seq<char>>, allowed: Seq<Seq<char>>) -> bool {
    match extension_of(path) {
        Some(ext) => allowed.contains(ascii_lower(ext)),
        None => false,
    }
}

/// The parent (`Path::parent`): every component but the last, unless the
/// path is empty or ends in a root.
pub open spec fn parent_of(path: Seq<Seq<char>>) -> Option<Seq<Seq<char>>> {
    if path.len() > 0 && !is_root(path.last()) {
        Some(path.drop_last())
    } else {
        None
    }
}

/// `base` joined with a one-component path (`Path::join`): a root replaces
/// the base, `.` is dropped behind a non-empty base, anything else is added.
pub open spec fn join_of(base: Seq<Seq<char>>, part: Seq<char>) -> Seq<Seq<char>> {
    if is_root(part) {
        seq![part]
    } else if part == seq!['.'] && base.len() > 0 {
        base
    } else {
        base.push(part)
    }
}

/// `prefix` is made of the first components of `path` (`Path::starts_with`).
pub open spec fn starts_with_parts(path: Seq<Seq<char>>, prefix: Seq<Seq<char>>) -> bool {
    prefix.len() <= path.len() && path.take(prefix.len() as int) == prefix
}

fn string_equals(a: &String, b: &str) -> (r: bool)
    ensures
        r == (a@ == b@),
{
    let s = a.as_str();
    let n = s.unicode_len();
    if n != b.unicode_len() {
        return false;
    }
    let mut i: usize = 0;
    while i < n
        invariant
            n == s@.len(),
            n == b@.len(),
            s@ == a@,
            i <= n,
            forall|k: int| 0 <= k < i ==> s@[k] == b@[k],
        decreases n - i,
    {
        if s.get_char(i) != b.get_char(i) {
            return false;
        }
        i = i + 1;
    }
    assert(s@ =~= b@);
    true
}

fn chars_equal(a: &Vec<char>, b: &str) -> (r: bool)
    ensures
        r == (a@ == b@),
{
    let n = a.len();
    if n != b.unicode_len() {
        return false;
    }
    let mut i: usize = 0;
    while i < n
        invariant
            n == a@.len(),
            n == b@.len(),
            i <= n,
            forall|k: int| 0 <= k < i ==> a@[k] == b@[k],
        decreases n - i,
    {
        if a[i] != b.get_char(i) {
            return false;
        }
        i = i + 1;
    }
    assert(a@ =~= b@);
    true
}

pub fn is_root_part(part: &String) -> (r: bool)
    ensures
        r == is_root(part@),
{
    proof {
        reveal_strlit("/");
        reveal_strlit("\\");
        assert("/"@ =~= seq!['/']);
        assert("\\"@ =~= seq!['\\']);
    }
    string_equals(part, "/") || string_equals(part, "\\")
}

fn is_name_part(part: &String) -> (r: bool)
    ensures
        r == is_name(part@),
{
    proof {
        reveal_strlit(".");
        reveal_strlit("..");
        assert("."@ =~= seq!['.']);
        assert(".."@ =~= seq!['.', '.']);
    }
    part.as_str().unicode_len() > 0 && !is_root_part(part) && !string_equals(part, ".")
        && !string_equals(part, "..")
}

/// The file name of `path`, if its last component is a name.
pub fn file_name(path: &PathParts) -> (r: Option<&String>)
    ensures
        match r {
            Some(name) => file_name_of(path@) == Some(name@),
            None => file_name_of(path@) is None,
        },
{
    let n = path.parts.len();
    if n > 0 && is_name_part(&path.parts[n - 1]) {
        Some(&path.parts[n - 1])
    } else {
        None
    }
}

/// The text of a path: its components joined by `/`, with no separator
/// after a root.
pub open spec fn path_text(path: Seq<Seq<char>>) -> Seq<char>
    decreases path.len(),
{
    if path.len() == 0 {
        Seq::<char>::empty()
    } else if path.len() == 1 {
        path[0]
    } else {
        let sep = if is_root(path[path.len() - 2]) {
            Seq::<char>::empty()
        } else {
            seq!['/']
        };
        path_text(path.drop_last()) + sep + path.last()
    }
}

/// The name to show for `path` in messages: its file name, or else the
/// whole path.
pub open spec fn shown_name(path: Seq<Seq<char>>) -> Seq<char> {
    match file_name_of(path) {
        Some(name) => name,
        None => path_text(path),
    }
}

pub fn display_name(path: &PathParts) -> (r: String)
    ensures
        r@ == shown_name(path@),
{
    if let Some(name) = file_name(path) {
        return name.clone();
    }
    let mut out = String::new();
    let n = path.parts.len();
    let mut i: usize = 0;
    assert(path@.take(0) =~= Seq::<Seq<char>>::empty());
    while i < n
        invariant
            n == path@.len(),
            i <= n,
            out@ == path_text(path@.take(i as int)),
        decreases n - i,
    {
        let ghost t = path@.take(i + 1);
        proof {
            assert(t.drop_last() =~= path@.take(i as int));
            assert(t.last() == path@[i as int]);
            if i > 0 {
                assert(t[t.len() - 2] == path@[i - 1]);
            } else {
                assert(t.len() == 1 && t[0] == path@[0]);
            }
        }
        if i > 0 && !is_root_part(&path.parts[i - 1]) {
            push_char(&mut out, '/');
        }
        out.append(path.parts[i].as_str());
        proof {
            if i == 0 {
                assert(out@ =~= path_text(t));
            } else if is_root(path@[i - 1]) {
                assert(out@ =~= path_text(t.drop_last()) + Seq::<char>::empty() + t.last());
            } else {
                assert(out@ =~= path_text(t.drop_last()) + seq!['/'] + t.last());
            }
        }
        i = i + 1;
    }
    assert(path@.take(n as int) =~= path@);
    out
}

/// The extension of `path` (`Path::extension`).
pub fn extension(path: &PathParts) -> (r: Option<String>)
    ensures
        match r {
            Some(ext) => extension_of(path@) == Some(ext@),
            None => extension_of(path@) is None,
        },
{
    let name = match file_name(path) {
        Some(name) => name.as_str(),
        None => return None,
    };
    let n = name.unicode_len();
    let mut dot: usize = n;
    let mut found = false;
    let mut i: usize = n;
    assert(name@.take(n as int) =~= name@);
    // Find the last dot, scanning from the end.
    while i > 0 && !found
        invariant
            n == name@.len(),
            i <= n,
            last_dot(name@) == last_dot(name@.take(i as int)),
            found ==> i > 0 && dot == i - 1 && name@[dot as int] == '.',
        decreases i + if found { 0int } else { 1int },
    {
        if name.get_char(i - 1) == '.' {
            dot = i - 1;
            found = true;
        } else {
            proof {
                assert(name@.take(i as int).drop_last() =~= name@.take(i - 1));
            }
            i = i - 1;
        }
    }
    proof {
        if found {
            assert(name@.take(i as int).last() == '.');
        } else {
            assert(name@.take(0) =~= Seq::<char>::empty());
        }
    }
    if !found || dot == 0 {
        return None;
    }
    Some(name.substring_char(dot + 1, n).to_owned())
}

/// The ASCII lower-cased extension of `path`.
fn lower_extension(path: &PathParts) -> (r: Option<Vec<char>>)
    ensures
        match r {
            Some(ext) => extension_of(path@) is Some && ext@ == ascii_lower(
                extension_of(path@)->0,
            ),
            None => extension_of(path@) is None,
        },
{
    let raw = match extension(path) {
        Some(raw) => raw,
        None => return None,
    };
    let e = raw.as_str();
    let n = e.unicode_len();
    let mut out: Vec<char> = Vec::new();
    let mut k: usize = 0;
    while k < n
        invariant
            n == e@.len(),
            k <= n,
            out@ == ascii_lower(e@.take(k as int)),
        decreases n - k,
    {
        let c = lower_ascii_char(e.get_char(k));
        out.push(c);
        proof {
            assert(e@.take(k + 1) =~= e@.take(k as int).push(e@[k as int]));
            assert(ascii_lower(e@.take(k + 1)) =~= ascii_lower(e@.take(k as int)).push(
                ascii_lower_char(e@[k as int]),
            ));
        }
        k = k + 1;
    }
    proof {
        assert(e@.take(n as int) =~= e@);
    }
    Some(out)
}

/// The contents of a sequence of string slices.
pub open spec fn str_views(s: Seq<&str>) -> Seq<Seq<char>> {
    s.map_values(|a: &str| a@)
}

/// The extension of `path`, lower-cased in ASCII, is one of `allowed`.
pub fn has_extension(path: &PathParts, allowed: &[&str]) -> (r: bool)
    ensures
        r == has_extension_in(path@, str_views(allowed@)),
{
    let ghost wanted = str_views(allowed@);
    let ext = match lower_extension(path) {
        Some(ext) => ext,
        None => return false,
    };
    let mut i: usize = 0;
    while i < allowed.len()
        invariant
            wanted == str_views(allowed@),
            extension_of(path@) is Some,
            ext@ == ascii_lower(extension_of(path@)->0),
            i <= allowed@.len(),
            forall|k: int| 0 <= k < i ==> wanted[k] != ext@,
        decreases allowed@.len() - i,
    {
        if chars_equal(&ext, allowed[i]) {
            assert(wanted[i as int] == ext@);
            assert(wanted.contains(ext@));
            return true;
        }
        i = i + 1;
    }
    false
}

/// The extensions of an archive.
pub open spec fn archive_extensions() -> Seq<Seq<char>> {
    seq!["zip"@]
}

/// The image formats that the converter reads as they are.
pub open spec fn image_extensions() -> Seq<Seq<char>> {
    seq!["jpg"@, "jpeg"@, "png"@, "gif"@, "webp"@]
}

/// `path` names a `.zip` file (any case).
pub fn is_zip(path: &PathParts) -> (r: bool)
    ensures
        r == has_extension_in(path@, archive_extensions()),
{
    let allowed: [&str; 1] = ["zip"];
    proof {
        assert(str_views(allowed@) =~= archive_extensions());
    }
    has_extension(path, allowed.as_slice())
}

/// Covers larger than this are not shown in the window.
pub const MAX_PREVIEW_BYTES: u64 = 32 * 1024 * 1024;

/// A cover of `size` bytes is small enough to preview.
pub fn preview_fits(size: u64) -> (r: bool)
    ensures
        r == (size <= MAX_PREVIEW_BYTES),
{
    size <= MAX_PREVIEW_BYTES
}

/// `path` names an image in one of the formats the converter reads.
pub fn is_image(path: &PathParts) -> (r: bool)
    ensures
        r == has_extension_in(path@, image_extensions()),
{
    let allowed: [&str; 5] = ["jpg", "jpeg", "png", "gif", "webp"];
    proof {
        assert(str_views(allowed@) =~= image_extensions());
    }
    has_extension(path, allowed.as_slice())
}

/// The parent of `path`.
pub fn parent(path: &PathParts) -> (r: Option<PathParts>)
    ensures
        match r {
            Some(p) => parent_of(path@) == Some(p@),
            None => parent_of(path@) is None,
        },
{
    let n = path.parts.len();
    if n > 0 && !is_root_part(&path.parts[n - 1]) {
        let mut parts = path.parts.clone();
        parts.pop();
        proof {
            assert(parts.deep_view() =~= path@.drop_last());
        }
        Some(PathParts { parts })
    } else {
        None
    }
}

/// `base` joined with the single component `part`.
pub fn join(base: &PathParts, part: &String) -> (r: PathParts)
    ensures
        r@ == join_of(base@, part@),
{
    proof {
        reveal_strlit(".");
        assert("."@ =~= seq!['.']);
    }
    if is_root_part(part) {
        let parts = vec![part.clone()];
        proof {
            assert(parts.deep_view() =~= seq![part@]);
        }
        PathParts { parts }
    } else if string_equals(part, ".") && base.parts.len() > 0 {
        base.duplicate()
    } else {
        let mut parts = base.parts.clone();
        parts.push(part.clone());
        proof {
            assert(parts.deep_view() =~= base@.push(part@));
        }
        PathParts { parts }
    }
}

/// `prefix` is made of the first components of `path`.
pub fn starts_with(path: &PathParts, prefix: &PathParts) -> (r: bool)
    ensures
        r == starts_with_parts(path@, prefix@),
{
    let n = prefix.parts.len();
    if n > path.parts.len() {
        return false;
    }
    let mut i: usize = 0;
    while i < n
        invariant
            n == prefix@.len(),
            n <= path@.len(),
            i <= n,
            forall|k: int| 0 <= k < i ==> path@[k] == prefix@[k],
        decreases n - i,
    {
        if !string_equals(&path.parts[i], prefix.parts[i].as_str()) {
            assert(path@.take(n as int)[i as int] != prefix@[i as int]);
            return false;
        }
        i = i + 1;
    }
    assert(path@.take(n as int) =~= prefix@);
    true
}

/// An output name that the run accepts before asking how many components it
/// has: not empty, and without a path separator (`/`, or `\`, which
/// separates paths on Windows). `.` and `..` pass here; where they would put
/// the output on the source or above it, the source check refuses them.
pub open spec fn is_output_name(s: Seq<char>) -> bool {
    &&& s.len() > 0
    &&& no_separator(s)
}

/// Whether `name` is an acceptable output name.
pub fn output_name_allowed(name: &str) -> (r: bool)
    ensures
        r == is_output_name(name@),
{
    let n = name.unicode_len();
    if n == 0 {
        return false;
    }
    let mut i: usize = 0;
    while i < n
        invariant
            n == name@.len(),
            i <= n,
            forall|k: int| 0 <= k < i ==> #[trigger] name@[k] != '/' && name@[k] != '\\',
        decreases n - i,
    {
        let c = name.get_char(i);
        if c == '/' || c == '\\' {
            return false;
        }
        i = i + 1;
    }
    true
}

/// The path with `.` components dropped and each `..` taking away the name
/// before it (a `..` right after a root stays at the root); a `..` with no
/// name before it is kept. This is the lexical reading of the path.
pub open spec fn normalized(path: Seq<Seq<char>>) -> Seq<Seq<char>>
    decreases path.len(),
{
    if path.len() == 0 {
        Seq::<Seq<char>>::empty()
    } else {
        let prev = normalized(path.drop_last());
        let c = path.last();
        if c == seq!['.'] {
            prev
        } else if c == seq!['.', '.'] && prev.len() > 0 && is_name(prev.last()) {
            prev.drop_last()
        } else if c == seq!['.', '.'] && prev.len() > 0 && is_root(prev.last()) {
            prev
        } else {
            prev.push(c)
        }
    }
}

/// The lexical reading of `path`.
pub fn normalize(path: &PathParts) -> (r: PathParts)
    ensures
        r@ == normalized(path@),
{
    proof {
        reveal_strlit(".");
        reveal_strlit("..");
        assert("."@ =~= seq!['.']);
        assert(".."@ =~= seq!['.', '.']);
    }
    let mut out: Vec<String> = Vec::new();
    let n = path.parts.len();
    let mut i: usize = 0;
    assert(path@.take(0) =~= Seq::<Seq<char>>::empty());
    assert(out.deep_view() =~= Seq::<Seq<char>>::empty());
    while i < n
        invariant
            n == path@.len(),
            i <= n,
            out.deep_view() == normalized(path@.take(i as int)),
        decreases n - i,
    {
        let ghost t = path@.take(i + 1);
        let ghost prev = out.deep_view();
        proof {
            assert(t.drop_last() =~= path@.take(i as int));
            assert(t.last() == path@[i as int]);
        }
        let c = &path.parts[i];
        let m = out.len();
        proof {
            reveal_strlit(".");
            reveal_strlit("..");
            assert("."@ =~= seq!['.']);
            assert(".."@ =~= seq!['.', '.']);
            assert(c@ == t.last());
            if m > 0 {
                assert(prev.last() == out@[m - 1]@);
            }
        }
        if string_equals(c, ".") {
            assert(normalized(t) == prev);
        } else if string_equals(c, "..") && m > 0 && is_name_part(&out[m - 1]) {
            out.pop();
            proof {
                assert(out.deep_view() =~= prev.drop_last());
                assert(normalized(t) == prev.drop_last());
            }
        } else if string_equals(c, "..") && m > 0 && is_root_part(&out[m - 1]) {
            assert(normalized(t) == prev);
        } else {
            let d = c.clone();
            out.push(d);
            proof {
                assert(out.deep_view() =~= prev.push(c@));
                assert(normalized(t) == prev.push(c@));
            }
        }
        i = i + 1;
    }
    assert(path@.take(n as int) =~= path@);
    PathParts { parts: out }
}

/// The keys of the components of `path`.
pub fn path_keys(path: &PathParts) -> (r: Vec<Vec<Chunk>>)
    ensures
        keys_view(r@) == path_key(path@),
{
    let mut out: Vec<Vec<Chunk>> = Vec::new();
    let mut i: usize = 0;
    while i < path.parts.len()
        invariant
            i <= path@.len(),
            keys_view(out@) == path_key(path@.take(i as int)),
        decreases path@.len() - i,
    {
        let k = key(path.parts[i].as_str());
        let ghost before = out@;
        out.push(k);
        proof {
            assert(keys_view(out@) =~= keys_view(before).push(path_key(path@.take(i + 1)).last()));
            assert(path_key(path@.take(i + 1)) =~= path_key(path@.take(i as int)).push(
                path_key(path@.take(i + 1)).last(),
            ));
        }
        i = i + 1;
    }
    assert(path@.take(path@.len() as int) =~= path@);
    out
}

} // verus!
