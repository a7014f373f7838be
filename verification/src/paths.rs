//! Paths as the library sees them: a sequence of components, as `std::path` splits a
//! path string, and the string that `PathBuf::push` builds back from components.

use vstd::prelude::*;

verus! {

/// One component of a path.
pub enum PathPart {
    /// A Windows prefix such as `C:` or `\\server\share`.
    Prefix(String),
    /// The root separator.
    Root,
    /// `.`
    CurDir,
    /// `..`
    ParentDir,
    /// A file or folder name.
    Normal(String),
}

/// The mathematical value of a [`PathPart`].
pub enum PartView {
    Prefix(Seq<char>),
    Root,
    CurDir,
    ParentDir,
    Normal(Seq<char>),
}

impl View for PathPart {
    type V = PartView;

    open spec fn view(&self) -> PartView {
        match self {
            PathPart::Prefix(p) => PartView::Prefix(p@),
            PathPart::Root => PartView::Root,
            PathPart::CurDir => PartView::CurDir,
            PathPart::ParentDir => PartView::ParentDir,
            PathPart::Normal(n) => PartView::Normal(n@),
        }
    }
}

/// The values of a sequence of components.
pub open spec fn parts_view(v: Seq<PathPart>) -> Seq<PartView> {
    v.map_values(|p: PathPart| p@)
}

/// A single file or folder name: not empty, not `.` or `..`, and free of the characters
/// that any supported platform reads as a separator or a drive prefix (`/`, `\`, `:`).
pub open spec fn plain_name(s: Seq<char>) -> bool {
    &&& s.len() > 0
    &&& s != seq!['.']
    &&& s != seq!['.', '.']
    &&& forall|i: int| 0 <= i < s.len() ==> #[trigger] s[i] != '/' && s[i] != '\\' && s[i] != ':'
}

/// The pieces of `s` between its `/`s (empty pieces included).
pub open spec fn split_slash(s: Seq<char>) -> Seq<Seq<char>>
    decreases s.len(),
{
    if s.len() == 0 {
        seq![Seq::empty()]
    } else {
        let r = split_slash(s.drop_first());
        if s[0] == '/' {
            seq![Seq::empty()] + r
        } else {
            r.update(0, seq![s[0]] + r[0])
        }
    }
}

/// The components named by `/`-separated pieces: empty pieces and `.` are skipped, `..`
/// is a parent component and any other piece a name.
pub open spec fn segment_parts(segs: Seq<Seq<char>>) -> Seq<PartView>
    decreases segs.len(),
{
    if segs.len() == 0 {
        Seq::empty()
    } else {
        let f = segs[0];
        let rest = segment_parts(segs.drop_first());
        if f.len() == 0 || f == seq!['.'] {
            rest
        } else if f == seq!['.', '.'] {
            seq![PartView::ParentDir] + rest
        } else {
            seq![PartView::Normal(f)] + rest
        }
    }
}

/// A path written with `/` only, in a form every supported platform reads the same way:
/// no `\`, no `:` (so no Windows prefix), and no leading `//`.
pub open spec fn slash_path(s: Seq<char>) -> bool {
    &&& forall|i: int| 0 <= i < s.len() ==> #[trigger] s[i] != '\\' && s[i] != ':'
    &&& !(s.len() >= 2 && s[0] == '/' && s[1] == '/')
}

/// The components of a `/`-separated path (`Path::components`): a root for a leading
/// `/`, a current-folder component only for a leading `.` piece of a relative path, then
/// the components of the pieces.
pub open spec fn slash_parts(s: Seq<char>) -> Seq<PartView> {
    if s.len() > 0 && s[0] == '/' {
        seq![PartView::Root] + segment_parts(split_slash(s.drop_first()))
    } else if s.len() > 0 && split_slash(s)[0] == seq!['.'] {
        seq![PartView::CurDir] + segment_parts(split_slash(s).drop_first())
    } else {
        segment_parts(split_slash(s))
    }
}

/// Splits a path into components with `std::path::Path::components`, each component's
/// text converted lossily to a `String`. Paths with `\`, `:` or a leading `//` split
/// differently on different platforms, so only `/`-separated paths are stated: there the
/// components are `slash_parts`, on every platform; a plain name is one `Normal`
/// component. A path that starts with a drive (`C:`) or with two `\\` does not start
/// with a root component on any platform (a prefix on Windows, a name elsewhere).
#[verifier::external_body]
pub(crate) fn path_components(path: &str) -> (r: Vec<PathPart>)
    ensures
        plain_name(path@) ==> parts_view(r@) == seq![PartView::Normal(path@)],
        slash_path(path@) ==> parts_view(r@) == slash_parts(path@),
        drive_form(path@) || unc_form(path@) ==> r@.len() > 0 && !(r@[0] is Root),
{
    std::path::Path::new(path)
        .components()
        .map(|c| match c {
            std::path::Component::Prefix(p) => PathPart::Prefix(
                p.as_os_str().to_string_lossy().into_owned(),
            ),
            std::path::Component::RootDir => PathPart::Root,
            std::path::Component::CurDir => PathPart::CurDir,
            std::path::Component::ParentDir => PathPart::ParentDir,
            std::path::Component::Normal(n) => PathPart::Normal(n.to_string_lossy().into_owned()),
        })
        .collect()
}

/// Reads `std::path::MAIN_SEPARATOR`, documented as `/` on Unix and `\` on Windows.
#[verifier::external_body]
pub(crate) fn main_separator() -> (c: char)
    ensures
        c == '/' || c == '\\',
{
    std::path::MAIN_SEPARATOR
}

/// `a` is what POSIX makes of an absolute `/`-separated `path`: a `/`-separated path with
/// the same components (the path is kept as given, trailing `/` included).
pub open spec fn posix_absolute_of(a: Seq<char>, path: Seq<char>) -> bool {
    slash_path(path) && path.len() > 0 && path[0] == '/' ==> slash_path(a) && slash_parts(a) == slash_parts(path)
}

/// Makes a path absolute with `std::path::absolute` (no file system access, but the
/// current directory is read), the result converted lossily to a `String` and an error
/// to its message. An empty path is refused, as its documentation says. A result is
/// absolute: on POSIX an absolute path is kept as given (its documentation: POSIX
/// semantics, `..` and trailing `/` kept, no current directory needed); on Windows
/// `GetFullPathNameW` gives a drive path or a UNC path. Whether a relative path
/// succeeds, and what it becomes, depends on the current directory and is not stated.
#[verifier::external_body]
pub(crate) fn absolute(path: &str) -> (r: Result<String, String>)
    ensures
        path@.len() == 0 ==> r is Err,
        r matches Ok(a) ==> posix_absolute_of(a@, path@) || drive_form(a@) || unc_form(a@),
{
    match std::path::absolute(path) {
        Ok(p) => Ok(p.to_string_lossy().into_owned()),
        Err(e) => Err(e.to_string()),
    }
}

/// `PathBuf::pop` on a path built from normalized components: the last component goes
/// when it is a name; a root or prefix stays.
pub open spec fn pop_part(acc: Seq<PartView>) -> Seq<PartView> {
    if acc.len() > 0 && acc.last() is Normal {
        acc.drop_last()
    } else {
        acc
    }
}

/// Lexical resolution of `.` and `..`: `.` is dropped, `..` removes the name before it
/// (never a root or prefix), every other component is kept.
pub open spec fn resolve_parts(parts: Seq<PartView>) -> Seq<PartView>
    decreases parts.len(),
{
    if parts.len() == 0 {
        Seq::empty()
    } else {
        let acc = resolve_parts(parts.drop_last());
        match parts.last() {
            PartView::CurDir => acc,
            PartView::ParentDir => pop_part(acc),
            p => acc.push(p),
        }
    }
}

/// The text that `PathBuf::push` appends for one component to `s`: a separator goes in
/// between a name and text that does not already end in one.
pub open spec fn push_part(s: Seq<char>, part: PartView, sep: char) -> Seq<char> {
    match part {
        PartView::Prefix(p) => s + p,
        PartView::Root => s + seq![sep],
        PartView::CurDir => if s.len() == 0 || s.last() == sep {
            s + seq!['.']
        } else {
            s + seq![sep, '.']
        },
        PartView::ParentDir => if s.len() == 0 || s.last() == sep {
            s + seq!['.', '.']
        } else {
            s + seq![sep, '.', '.']
        },
        PartView::Normal(n) => if s.len() == 0 || s.last() == sep {
            s + n
        } else {
            s + seq![sep] + n
        },
    }
}

/// The path text built from components, as successive `PathBuf::push` calls build it.
pub open spec fn join_parts(parts: Seq<PartView>, sep: char) -> Seq<char>
    decreases parts.len(),
{
    if parts.len() == 0 {
        Seq::empty()
    } else {
        push_part(join_parts(parts.drop_last(), sep), parts.last(), sep)
    }
}

fn append_chars(out: &mut Vec<char>, s: &str)
    ensures
        final(out)@ == old(out)@ + s@,
{
    let cs = crate::text::chars_of(s);
    let ghost start = out@;
    let mut i: usize = 0;
    while i < cs.len()
        invariant
            i <= cs@.len(),
            out@ == start + cs@.subrange(0, i as int),
        decreases cs@.len() - i,
    {
        out.push(cs[i]);
        assert(out@ =~= start + cs@.subrange(0, i + 1));
        i = i + 1;
    }
    assert(cs@.subrange(0, cs@.len() as int) =~= cs@);
}

fn push_part_chars(out: &mut Vec<char>, part: &PathPart, sep: char)
    ensures
        final(out)@ == push_part(old(out)@, part@, sep),
{
    let needs_sep = out.len() > 0 && out[out.len() - 1] != sep;
    match part {
        PathPart::Prefix(p) => append_chars(out, p.as_str()),
        PathPart::Root => out.push(sep),
        PathPart::CurDir => {
            if needs_sep {
                out.push(sep);
            }
            out.push('.');
        },
        PathPart::ParentDir => {
            if needs_sep {
                out.push(sep);
            }
            out.push('.');
            out.push('.');
        },
        PathPart::Normal(n) => {
            if needs_sep {
                out.push(sep);
            }
            append_chars(out, n.as_str());
        },
    }
    assert(final(out)@ =~= push_part(old(out)@, part@, sep));
}

/// Builds the path text of a component sequence.
pub fn join_path(parts: &Vec<PathPart>, sep: char) -> (r: String)
    ensures
        r@ == join_parts(parts_view(parts@), sep),
{
    let mut out: Vec<char> = Vec::new();
    let mut i: usize = 0;
    while i < parts.len()
        invariant
            i <= parts@.len(),
            out@ == join_parts(parts_view(parts@).subrange(0, i as int), sep),
        decreases parts@.len() - i,
    {
        push_part_chars(&mut out, &parts[i], sep);
        assert(parts_view(parts@).subrange(0, i + 1).drop_last() =~= parts_view(parts@).subrange(
            0,
            i as int,
        ));
        i = i + 1;
    }
    assert(parts_view(parts@).subrange(0, parts@.len() as int) =~= parts_view(parts@));
    crate::text::string_from_chars(out.as_slice())
}

fn copy_part(p: &PathPart) -> (r: PathPart)
    ensures
        r@ == p@,
{
    match p {
        PathPart::Prefix(s) => PathPart::Prefix(s.clone()),
        PathPart::Root => PathPart::Root,
        PathPart::CurDir => PathPart::CurDir,
        PathPart::ParentDir => PathPart::ParentDir,
        PathPart::Normal(s) => PathPart::Normal(s.clone()),
    }
}

/// Resolves `.` and `..` in a component sequence without touching the file system.
pub fn normalize_parts(parts: &Vec<PathPart>) -> (r: Vec<PathPart>)
    ensures
        parts_view(r@) == resolve_parts(parts_view(parts@)),
{
    let mut out: Vec<PathPart> = Vec::new();
    let mut i: usize = 0;
    while i < parts.len()
        invariant
            i <= parts@.len(),
            parts_view(out@) == resolve_parts(parts_view(parts@).subrange(0, i as int)),
        decreases parts@.len() - i,
    {
        let ghost before = parts_view(out@);
        match &parts[i] {
            PathPart::CurDir => {},
            PathPart::ParentDir => {
                let n = out.len();
                if n > 0 {
                    let is_name = match &out[n - 1] {
                        PathPart::Normal(_) => true,
                        _ => false,
                    };
                    if is_name {
                        out.pop();
                        assert(parts_view(out@) =~= before.drop_last());
                    }
                }
            },
            p => {
                out.push(copy_part(p));
                assert(parts_view(out@) =~= before.push(parts@[i as int]@));
            },
        }
        assert(parts_view(parts@).subrange(0, i + 1).drop_last() =~= parts_view(parts@).subrange(
            0,
            i as int,
        ));
        i = i + 1;
    }
    assert(parts_view(parts@).subrange(0, parts@.len() as int) =~= parts_view(parts@));
    out
}


/// The components of the parent of a path (`Path::parent`): all but the last, when the
/// last is a name, `.` or `..`; none when the path ends in a root or prefix or is empty.
pub open spec fn parent_parts(parts: Seq<PartView>) -> Option<Seq<PartView>> {
    if parts.len() > 0 && !(parts.last() is Root) && !(parts.last() is Prefix) {
        Some(parts.drop_last())
    } else {
        None
    }
}

/// The final component of a path when it is a name (`Path::file_name`).
pub open spec fn file_name_part(parts: Seq<PartView>) -> Option<Seq<char>> {
    if parts.len() > 0 && parts.last() is Normal {
        Some(parts.last()->Normal_0)
    } else {
        None
    }
}

/// The final name of the path made of `parts`.
pub fn file_name_text(parts: &Vec<PathPart>) -> (r: Option<String>)
    ensures
        opt_text(r) == file_name_part(parts_view(parts@)),
{
    let n = parts.len();
    if n == 0 {
        return None;
    }
    match &parts[n - 1] {
        PathPart::Normal(name) => Some(name.clone()),
        _ => None,
    }
}

/// The value of an optional string.
pub open spec fn opt_text(o: Option<String>) -> Option<Seq<char>> {
    match o {
        Some(s) => Some(s@),
        None => None,
    }
}


/// Index of the last `.` in `s`.
pub open spec fn last_dot(s: Seq<char>) -> Option<int>
    decreases s.len(),
{
    if s.len() == 0 {
        None
    } else if s.last() == '.' {
        Some(s.len() - 1)
    } else {
        last_dot(s.drop_last())
    }
}

proof fn lemma_last_dot(s: Seq<char>)
    ensures
        last_dot(s) matches Some(i) ==> 0 <= i < s.len() && s[i] == '.' && forall|j: int|
            i < j < s.len() ==> s[j] != '.',
        last_dot(s) is None ==> forall|j: int| 0 <= j < s.len() ==> s[j] != '.',
    decreases s.len(),
{
    if s.len() > 0 && s.last() != '.' {
        lemma_last_dot(s.drop_last());
        assert forall|j: int| 0 <= j < s.len() - 1 implies s[j] == s.drop_last()[j] by {}
    }
}

/// The extension of a file name (`Path::extension`): the text after the last `.`, when
/// that `.` is not the first character.
pub open spec fn extension_of(name: Seq<char>) -> Option<Seq<char>> {
    match last_dot(name) {
        Some(i) => if i > 0 {
            Some(name.subrange(i + 1, name.len() as int))
        } else {
            None
        },
        None => None,
    }
}

/// The extension of a file name.
pub fn extension_text(name: &str) -> (r: Option<String>)
    ensures
        opt_text(r) == extension_of(name@),
{
    let cs = crate::text::chars_of(name);
    let n = cs.len();
    let mut i: usize = n;
    proof {
        lemma_last_dot(cs@);
        assert(cs@.subrange(0, n as int) =~= cs@);
    }
    while i > 0 && cs[i - 1] != '.'
        invariant
            i <= n == cs@.len(),
            last_dot(cs@) == last_dot(cs@.subrange(0, i as int)),
        decreases i,
    {
        assert(cs@.subrange(0, i as int).drop_last() =~= cs@.subrange(0, i - 1));
        i = i - 1;
    }
    if i <= 1 {
        proof {
            if i == 1 {
                assert(cs@.subrange(0, 1).last() == '.');
            }
        }
        return None;
    }
    let mut out: Vec<char> = Vec::new();
    let mut k: usize = i;
    while k < n
        invariant
            i <= k <= n == cs@.len(),
            out@ == cs@.subrange(i as int, k as int),
        decreases n - k,
    {
        out.push(cs[k]);
        assert(out@ =~= cs@.subrange(i as int, k + 1));
        k = k + 1;
    }
    assert(cs@.subrange(0, i as int).last() == '.');
    Some(crate::text::string_from_chars(out.as_slice()))
}

/// A relative `/`-separated path joined to an empty one or one that ends with `/`.
pub open spec fn joins_directly(base: Seq<char>, rest: Seq<char>) -> bool {
    &&& slash_path(base) && slash_path(rest)
    &&& rest.len() > 0 && rest[0] != '/'
    &&& base.len() == 0 || base.last() == '/'
}

/// A relative `/`-separated path joined to one that does not end with a separator.
pub open spec fn joins_with_separator(base: Seq<char>, rest: Seq<char>) -> bool {
    &&& slash_path(base) && slash_path(rest)
    &&& rest.len() > 0 && rest[0] != '/'
    &&& base.len() > 0 && base.last() != '/'
}

/// `joined` is `base`, a platform separator, then `rest`.
pub open spec fn separator_joined(joined: Seq<char>, base: Seq<char>, rest: Seq<char>) -> bool {
    exists|sep: char| (sep == '/' || sep == '\\') && joined == base + seq![sep] + rest
}

/// Joins two paths with `Path::join`, the result converted lossily to a `String`. Of
/// `/`-separated paths its documentation and source give, on every platform: a second
/// path starting with `/` replaces the first (on Windows it keeps the first path's
/// prefix, which a `/`-separated path has none of); a relative second path is appended
/// after the first, with the platform's separator in between unless the first is empty
/// or already ends with `/`. Other paths follow the platform's path syntax and are not
/// stated.
#[verifier::external_body]
pub(crate) fn join_paths(base: &str, rest: &str) -> (r: String)
    ensures
        slash_path(base@) && slash_path(rest@) && rest@.len() > 0 && rest@[0] == '/' ==> r@ == rest@,
        joins_directly(base@, rest@) ==> r@ == base@ + rest@,
        joins_with_separator(base@, rest@) ==> separator_joined(r@, base@, rest@),
{
    std::path::Path::new(base).join(rest).to_string_lossy().into_owned()
}

/// Whether a path is absolute (`Path::is_absolute`). What makes a path absolute depends
/// on the platform; on every platform a `/`-separated path that does not start with `/`
/// is relative.
#[verifier::external_body]
pub(crate) fn is_absolute_path(path: &str) -> (r: bool)
    ensures
        slash_path(path@) && (path@.len() == 0 || path@[0] != '/') ==> !r,
{
    std::path::Path::new(path).is_absolute()
}


/// A component sequence without `.` or `..`.
pub open spec fn dot_free(parts: Seq<PartView>) -> bool {
    forall|i: int| 0 <= i < parts.len() ==> !(#[trigger] parts[i] is CurDir) && !(parts[i] is ParentDir)
}

/// Resolving `.` and `..` leaves none of them, and resolving again changes nothing.
pub proof fn lemma_resolve_parts(parts: Seq<PartView>)
    ensures
        dot_free(resolve_parts(parts)),
        resolve_parts(resolve_parts(parts)) == resolve_parts(parts),
    decreases parts.len(),
{
    if parts.len() > 0 {
        lemma_resolve_parts(parts.drop_last());
    }
    lemma_resolve_dot_free(resolve_parts(parts));
}

/// Resolving a sequence without `.` or `..` gives it back.
pub proof fn lemma_resolve_dot_free(parts: Seq<PartView>)
    requires
        dot_free(parts),
    ensures
        resolve_parts(parts) == parts,
    decreases parts.len(),
{
    if parts.len() > 0 {
        let p = parts.drop_last();
        assert(dot_free(p)) by {
            assert forall|i: int| 0 <= i < p.len() implies !(#[trigger] p[i] is CurDir) && !(
            p[i] is ParentDir) by {
                assert(p[i] == parts[i]);
            }
        }
        lemma_resolve_dot_free(p);
        assert(parts.last() == parts[parts.len() - 1]);
        assert(p.push(parts.last()) =~= parts);
    }
}

} // verus!

verus! {

// ---------------------------------------------------------------- resolved paths

/// A Windows verbatim prefix (`\\?\`).
pub open spec fn verbatim_prefix(p: Seq<char>) -> bool {
    p.len() >= 4 && p[0] == '\\' && p[1] == '\\' && p[2] == '?' && p[3] == '\\'
}

/// The components start with a verbatim prefix.
pub open spec fn is_verbatim(parts: Seq<PartView>) -> bool {
    parts.len() > 0 && (parts[0] matches PartView::Prefix(p) && verbatim_prefix(p))
}

/// A component name as `Path::components` gives it for separator `sep`: not empty, not
/// `.` or `..`, without the separator; and, where `\` separates and the path is not
/// verbatim, without `/` either.
pub open spec fn name_ok(n: Seq<char>, sep: char, verbatim: bool) -> bool {
    &&& n.len() > 0
    &&& n != seq!['.']
    &&& n != seq!['.', '.']
    &&& !n.contains(sep)
    &&& sep == '\\' && !verbatim ==> !n.contains('/')
}

/// One component at index `i` in that form: a prefix only first and only where `\`
/// separates (without `/` unless verbatim), names as [`name_ok`] says.
pub open spec fn part_ok(x: PartView, i: int, sep: char, verbatim: bool) -> bool {
    match x {
        PartView::Prefix(p) => i == 0 && sep == '\\' && (!verbatim ==> !p.contains('/')) && (drive_form(p)
            || unc_form(p)),
        PartView::Normal(n) => name_ok(n, sep, verbatim),
        _ => true,
    }
}

/// Every component is in the form `Path::components` gives for separator `sep`.
pub open spec fn clean_parts(parts: Seq<PartView>, sep: char) -> bool {
    forall|i: int| 0 <= i < parts.len() ==> part_ok(#[trigger] parts[i], i, sep, is_verbatim(parts))
}

/// `s` is a resolved path for separator `sep`: the text of components in that form with
/// no `.` or `..` among them. (So no `.` or `..` can hide in its names or prefix.)
pub open spec fn resolved_path(s: Seq<char>, sep: char) -> bool {
    exists|parts: Seq<PartView>|
        dot_free(parts) && clean_parts(parts, sep) && rooted(parts) && s == join_parts(parts, sep)
}

/// The components of an absolute path: they start with a root or a prefix.
pub open spec fn rooted(parts: Seq<PartView>) -> bool {
    parts.len() > 0 && (parts[0] is Root || parts[0] is Prefix)
}

/// A Windows drive path: an ASCII letter, then `:`.
pub open spec fn drive_form(s: Seq<char>) -> bool {
    s.len() >= 2 && s[1] == ':' && (('a' <= s[0] && s[0] <= 'z') || ('A' <= s[0] && s[0] <= 'Z'))
}

/// A Windows UNC, device or verbatim path: two `\`, then a character that is no
/// separator.
pub open spec fn unc_form(s: Seq<char>) -> bool {
    s.len() >= 3 && s[0] == '\\' && s[1] == '\\' && s[2] != '\\' && s[2] != '/'
}

/// Resolution keeps components in order and adds none: each kept one sits at an index
/// no later than where it was, and a leading prefix stays first.
proof fn lemma_resolve_keeps(parts: Seq<PartView>)
    ensures
        resolve_parts(parts).len() <= parts.len(),
        forall|i: int|
            0 <= i < resolve_parts(parts).len() ==> exists|j: int|
                i <= j < parts.len() && parts[j] == #[trigger] resolve_parts(parts)[i],
        parts.len() > 0 && (parts[0] is Prefix || parts[0] is Root) ==> resolve_parts(parts).len() > 0
            && resolve_parts(parts)[0] == parts[0],
    decreases parts.len(),
{
    if parts.len() > 0 {
        let p = parts.drop_last();
        lemma_resolve_keeps(p);
        let acc = resolve_parts(p);
        let r = resolve_parts(parts);
        assert forall|i: int| 0 <= i < r.len() implies exists|j: int| i <= j < parts.len() && parts[j] == #[trigger] r[i] by {
            if i < acc.len() && r[i] == acc[i] {
                let j = choose|j: int| i <= j < p.len() && p[j] == acc[i];
                assert(parts[j] == p[j]);
            } else {
                assert(r[i] == parts.last());
                assert(parts[parts.len() - 1] == parts.last());
            }
        }
        if parts.len() > 1 && (parts[0] is Prefix || parts[0] is Root) {
            assert(p[0] == parts[0]);
        }
    }
}

/// Resolving components in the form `Path::components` gives keeps them in that form.
pub proof fn lemma_resolve_clean(parts: Seq<PartView>, sep: char)
    requires
        clean_parts(parts, sep),
    ensures
        clean_parts(resolve_parts(parts), sep),
        dot_free(resolve_parts(parts)),
        rooted(parts) ==> rooted(resolve_parts(parts)) && resolve_parts(parts)[0] == parts[0],
{
    lemma_resolve_keeps(parts);
    lemma_resolve_parts(parts);
    let r = resolve_parts(parts);
    assert(is_verbatim(r) == is_verbatim(parts)) by {
        if r.len() > 0 && r[0] is Prefix {
            let j = choose|j: int| 0 <= j < parts.len() && parts[j] == r[0];
            assert(part_ok(parts[j], j, sep, is_verbatim(parts)));
        }
    }
    assert forall|i: int| 0 <= i < r.len() implies part_ok(#[trigger] r[i], i, sep, is_verbatim(r)) by {
        let j = choose|j: int| i <= j < parts.len() && parts[j] == r[i];
        assert(part_ok(parts[j], j, sep, is_verbatim(parts)));
    }
}

fn has_char(s: &str, c: char) -> (r: bool)
    ensures
        r == s@.contains(c),
{
    let cs = crate::text::chars_of(s);
    let mut i: usize = 0;
    while i < cs.len()
        invariant
            i <= cs@.len(),
            cs@ == s@,
            forall|k: int| 0 <= k < i ==> cs@[k] != c,
        decreases cs@.len() - i,
    {
        if cs[i] == c {
            assert(s@[i as int] == c);
            return true;
        }
        i = i + 1;
    }
    false
}

fn name_ok_exec(n: &str, sep: char, verbatim: bool) -> (r: bool)
    ensures
        r == name_ok(n@, sep, verbatim),
{
    let cs = crate::text::chars_of(n);
    if cs.len() == 0 {
        return false;
    }
    if cs.len() == 1 && cs[0] == '.' {
        assert(n@ =~= seq!['.']);
        return false;
    }
    if cs.len() == 2 && cs[0] == '.' && cs[1] == '.' {
        assert(n@ =~= seq!['.', '.']);
        return false;
    }
    if has_char(n, sep) {
        return false;
    }
    if sep == '\\' && !verbatim && has_char(n, '/') {
        return false;
    }
    true
}

fn windows_prefix_text(p: &str) -> (r: bool)
    ensures
        r == (drive_form(p@) || unc_form(p@)),
{
    let cs = crate::text::chars_of(p);
    let n = cs.len();
    let drive = n >= 2 && cs[1] == ':' && (('a' <= cs[0] && cs[0] <= 'z') || ('A' <= cs[0] && cs[0] <= 'Z'));
    let unc = n >= 3 && cs[0] == '\\' && cs[1] == '\\' && cs[2] != '\\' && cs[2] != '/';
    drive || unc
}

/// Whether the components are in the form `Path::components` gives for separator `sep`.
pub fn parts_clean(parts: &Vec<PathPart>, sep: char) -> (r: bool)
    ensures
        r == clean_parts(parts_view(parts@), sep),
{
    let ghost pv = parts_view(parts@);
    let verbatim = parts.len() > 0 && match &parts[0] {
        PathPart::Prefix(p) => {
            let cs = crate::text::chars_of(p.as_str());
            cs.len() >= 4 && cs[0] == '\\' && cs[1] == '\\' && cs[2] == '?' && cs[3] == '\\'
        },
        _ => false,
    };
    assert(verbatim == is_verbatim(pv));
    let mut i: usize = 0;
    while i < parts.len()
        invariant
            i <= parts@.len(),
            pv == parts_view(parts@),
            verbatim == is_verbatim(pv),
            forall|k: int| 0 <= k < i ==> part_ok(#[trigger] pv[k], k, sep, verbatim),
        decreases parts@.len() - i,
    {
        let ok = match &parts[i] {
            PathPart::Prefix(p) => i == 0 && sep == '\\' && (verbatim || !has_char(p.as_str(), '/'))
                && windows_prefix_text(p.as_str()),
            PathPart::Normal(n) => name_ok_exec(n.as_str(), sep, verbatim),
            _ => true,
        };
        assert(pv[i as int] == parts@[i as int]@);
        if !ok {
            return false;
        }
        i = i + 1;
    }
    true
}

} // verus!

verus! {

// ---------------------------------------------------------------- parents

/// The least `k >= from` at which the first `k` characters of `s` have the components
/// `target` (or the length of `s` if none has).
pub open spec fn first_prefix_with(s: Seq<char>, target: Seq<PartView>, from: nat) -> nat
    decreases s.len() - from,
{
    if from >= s.len() {
        s.len()
    } else if slash_parts(s.subrange(0, from as int)) == target {
        from
    } else {
        first_prefix_with(s, target, from + 1)
    }
}

/// `Path::parent` of a `/`-separated path: nothing when its last component is a root
/// (or it has none); else the shortest beginning of the path that has all its
/// components but the last (the path with its last component and the separators and
/// `.`s before it cut off).
pub open spec fn parent_slice(s: Seq<char>) -> Option<Seq<char>> {
    match parent_parts(slash_parts(s)) {
        Some(q) => Some(s.subrange(0, first_prefix_with(s, q, 0) as int)),
        None => None,
    }
}

/// Calls `Path::parent` and converts the result lossily to a `String`: the path without
/// its final component, as a slice of the given path. For a `/`-separated path that is
/// [`parent_slice`] (std takes the components but the last and trims the separators and
/// `.`s after them), on every platform; for a plain name it is the empty path.
#[verifier::external_body]
pub(crate) fn path_parent(path: &str) -> (r: Option<String>)
    ensures
        slash_path(path@) ==> opt_text(r) == parent_slice(path@),
        plain_name(path@) ==> opt_text(r) == Some(Seq::<char>::empty()),
{
    match std::path::Path::new(path).parent() {
        Some(p) => Some(p.to_string_lossy().into_owned()),
        None => None,
    }
}

} // verus!

verus! {

/// The text of a path begins with the text of its first component.
proof fn lemma_join_starts(parts: Seq<PartView>, sep: char)
    requires
        parts.len() > 0,
    ensures
        push_part(Seq::empty(), parts[0], sep).len() <= join_parts(parts, sep).len(),
        join_parts(parts, sep).subrange(0, push_part(Seq::empty(), parts[0], sep).len() as int)
            == push_part(Seq::empty(), parts[0], sep),
    decreases parts.len(),
{
    let first = push_part(Seq::empty(), parts[0], sep);
    if parts.len() == 1 {
        assert(parts.drop_last() =~= Seq::<PartView>::empty());
        assert(join_parts(parts, sep) == first);
        assert(join_parts(parts, sep).subrange(0, first.len() as int) =~= first);
    } else {
        let p = parts.drop_last();
        lemma_join_starts(p, sep);
        assert(p[0] == parts[0]);
        let jp = join_parts(p, sep);
        let j = join_parts(parts, sep);
        assert(j.len() >= jp.len() && j.subrange(0, jp.len() as int) =~= jp);
        assert(j.subrange(0, first.len() as int) =~= jp.subrange(0, first.len() as int));
    }
}

/// A rooted path in the form `Path::components` gives for the separator `\` is not a
/// `/`-separated path: it starts with `\`, a drive or a UNC prefix.
pub proof fn lemma_backslash_rooted_not_slash(parts: Seq<PartView>)
    requires
        rooted(parts),
        clean_parts(parts, '\\'),
    ensures
        !slash_path(join_parts(parts, '\\')),
{
    lemma_join_starts(parts, '\\');
    let s = join_parts(parts, '\\');
    let first = push_part(Seq::empty(), parts[0], '\\');
    assert(part_ok(parts[0], 0, '\\', is_verbatim(parts)));
    match parts[0] {
        PartView::Root => {
            assert(first =~= seq!['\\']);
            assert(s[0] == first[0]);
        },
        PartView::Prefix(t) => {
            assert(first =~= t);
            if drive_form(t) {
                assert(s[1] == t[1]);
            } else {
                assert(s[0] == t[0]);
            }
        },
        _ => {},
    }
}

} // verus!

verus! {

/// The lexical resolution of an absolute `/`-separated path is absolute (it starts with
/// `/`), holds no `.` or `..` component, and resolving it again changes nothing: `..`
/// never climbs above the root.
pub proof fn lemma_lexical_absolute(p: Seq<char>)
    requires
        slash_path(p),
        p.len() > 0,
        p[0] == '/',
    ensures
        join_parts(resolve_parts(slash_parts(p)), '/').len() > 0,
        join_parts(resolve_parts(slash_parts(p)), '/')[0] == '/',
        resolve_parts(slash_parts(p))[0] is Root,
        dot_free(resolve_parts(slash_parts(p))),
        resolve_parts(resolve_parts(slash_parts(p))) == resolve_parts(slash_parts(p)),
{
    let parts = slash_parts(p);
    assert(parts[0] is Root);
    lemma_resolve_keeps(parts);
    lemma_resolve_parts(parts);
    let r = resolve_parts(parts);
    lemma_join_starts(r, '/');
    assert(push_part(Seq::empty(), r[0], '/') =~= seq!['/']);
    let j = join_parts(r, '/');
    assert(j.subrange(0, 1) == seq!['/']);
    assert(j[0] == j.subrange(0, 1)[0]);
}

} // verus!
