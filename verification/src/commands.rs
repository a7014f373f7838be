//! What the viewer's commands compute: documents built from files, link targets,
//! external URLs, title-bar colours, and the files named on a command line.

use vstd::prelude::*;
use vstd::string::StringExecFns;

use crate::encoding::{decodable_len, decode, decoded_text, encoding_name};
use crate::paths::{
    extension_of, extension_text, file_name_part, file_name_text, is_absolute_path, join_paths,
    join_parts, parent_parts, parent_slice, path_parent, parts_view, path_components, plain_name,
    opt_text, separator_joined, slash_parts, slash_path, PartView,
};
use crate::render::{render, rendered_html};
use crate::state::{absolute_slash_path, is_resolved, lexical_form, normalize_path};
use crate::text::{
    ascii_lower_seq, chars_of, percent_decode, percent_decoded, string_from_chars, to_ascii_lower,
    trim_chars, trim_seq,
};

verus! {

// ---------------------------------------------------------------- documents

/// A rendered document as the front end receives it.
pub struct Document {
    pub path: String,
    pub name: String,
    pub dir: String,
    pub html: String,
    pub encoding: &'static str,
}

/// The extensions of files the viewer opens, compared without ASCII case.
pub open spec fn markdown_extensions() -> Seq<Seq<char>> {
    seq!["md"@, "markdown"@, "mdown"@, "mkd"@, "mdtxt"@, "txt"@]
}

/// `ext` is one of the Markdown extensions, ASCII case ignored.
pub open spec fn is_markdown_extension(ext: Seq<char>) -> bool {
    exists|i: int|
        0 <= i < markdown_extensions().len() && ascii_lower_seq(ext) == ascii_lower_seq(
            #[trigger] markdown_extensions()[i],
        )
}

/// A file name whose extension is a Markdown extension.
pub open spec fn is_markdown_name(name: Seq<char>) -> bool {
    extension_of(name) matches Some(e) && is_markdown_extension(e)
}

/// Whether two strings are equal when ASCII letters are compared without case.
pub fn eq_ignore_ascii_case(a: &str, b: &str) -> (r: bool)
    ensures
        r == (ascii_lower_seq(a@) == ascii_lower_seq(b@)),
{
    let x = chars_of(a);
    let y = chars_of(b);
    if x.len() != y.len() {
        assert(ascii_lower_seq(x@).len() != ascii_lower_seq(y@).len());
        return false;
    }
    let mut i: usize = 0;
    while i < x.len()
        invariant
            x@ == a@,
            y@ == b@,
            x@.len() == y@.len(),
            i <= x@.len(),
            forall|j: int| 0 <= j < i ==> ascii_lower_seq(x@)[j] == ascii_lower_seq(y@)[j],
        decreases x@.len() - i,
    {
        if to_ascii_lower(x[i]) != to_ascii_lower(y[i]) {
            assert(ascii_lower_seq(x@)[i as int] != ascii_lower_seq(y@)[i as int]);
            return false;
        }
        i = i + 1;
    }
    assert(ascii_lower_seq(x@) =~= ascii_lower_seq(y@));
    true
}

/// Whether a file name has one of the Markdown extensions (`md`, `markdown`, `mdown`,
/// `mkd`, `mdtxt`, `txt`), ASCII case ignored.
pub fn is_markdown_name_text(name: &str) -> (r: bool)
    ensures
        r == is_markdown_name(name@),
{
    let ext = match extension_text(name) {
        Some(e) => e,
        None => return false,
    };
    let e = ext.as_str();
    proof {
        reveal_strlit("md");
        reveal_strlit("markdown");
        reveal_strlit("mdown");
        reveal_strlit("mkd");
        reveal_strlit("mdtxt");
        reveal_strlit("txt");
    }
    let r = eq_ignore_ascii_case(e, "md") || eq_ignore_ascii_case(e, "markdown")
        || eq_ignore_ascii_case(e, "mdown") || eq_ignore_ascii_case(e, "mkd")
        || eq_ignore_ascii_case(e, "mdtxt") || eq_ignore_ascii_case(e, "txt");
    proof {
        let exts = markdown_extensions();
        if r {
            if ascii_lower_seq(ext@) == ascii_lower_seq("md"@) {
                assert(ascii_lower_seq(ext@) == ascii_lower_seq(exts[0]));
            } else if ascii_lower_seq(ext@) == ascii_lower_seq("markdown"@) {
                assert(ascii_lower_seq(ext@) == ascii_lower_seq(exts[1]));
            } else if ascii_lower_seq(ext@) == ascii_lower_seq("mdown"@) {
                assert(ascii_lower_seq(ext@) == ascii_lower_seq(exts[2]));
            } else if ascii_lower_seq(ext@) == ascii_lower_seq("mkd"@) {
                assert(ascii_lower_seq(ext@) == ascii_lower_seq(exts[3]));
            } else if ascii_lower_seq(ext@) == ascii_lower_seq("mdtxt"@) {
                assert(ascii_lower_seq(ext@) == ascii_lower_seq(exts[4]));
            } else {
                assert(ascii_lower_seq(ext@) == ascii_lower_seq(exts[5]));
            }
        } else {
            assert forall|i: int| 0 <= i < exts.len() implies ascii_lower_seq(ext@)
                != ascii_lower_seq(#[trigger] exts[i]) by {
                if i == 0 {
                } else if i == 1 {
                } else if i == 2 {
                } else if i == 3 {
                } else if i == 4 {
                } else {
                }
            }
        }
    }
    r
}

/// The path's final name exists and has a Markdown extension.
pub open spec fn is_markdown_path(parts: Seq<PartView>) -> bool {
    file_name_part(parts) matches Some(n) && is_markdown_name(n)
}

/// Whether the path names a Markdown file by its extension (`md`, `markdown`, `mdown`,
/// `mkd`, `mdtxt` or `txt`, ASCII case ignored).
pub fn is_markdown_file(path: &str) -> (r: bool)
    ensures
        plain_name(path@) ==> r == is_markdown_name(path@),
        slash_path(path@) ==> r == is_markdown_path(slash_parts(path@)),
{
    let parts = path_components(path);
    let r = match file_name_text(&parts) {
        Some(name) => is_markdown_name_text(name.as_str()),
        None => false,
    };
    assert(r == is_markdown_path(parts_view(parts@)));
    r
}

/// The final name of a path, or nothing.
pub open spec fn name_or_empty(parts: Seq<PartView>) -> Seq<char> {
    match file_name_part(parts) {
        Some(n) => n,
        None => Seq::empty(),
    }
}

/// The parent folder of a `/`-separated path as `Path::parent` gives it, or nothing.
pub open spec fn folder_or_empty(path: Seq<char>) -> Seq<char> {
    match parent_slice(path) {
        Some(p) => p,
        None => Seq::empty(),
    }
}

/// The document sent to the front end for the file at `path`, with its name and folder
/// (`Path::file_name` and `Path::parent`, empty where there is none).
pub fn document_from(path: &str, html: String, encoding: &'static str) -> (d: Document)
    ensures
        d.path@ == path@,
        d.html == html,
        d.encoding == encoding,
        plain_name(path@) ==> d.name@ == path@ && d.dir@ == Seq::<char>::empty(),
        slash_path(path@) ==> d.name@ == name_or_empty(slash_parts(path@)) && d.dir@ == folder_or_empty(path@),
{
    let parts = path_components(path);
    let name = match file_name_text(&parts) {
        Some(n) => n,
        None => String::new(),
    };
    let dir = match path_parent(path) {
        Some(d) => d,
        None => String::new(),
    };
    proof {
        let pv = parts_view(parts@);
        assert(name@ == name_or_empty(pv));
    }
    Document { path: String::from_str(path), name, dir, html, encoding }
}

/// Decodes the bytes of the file at `path` and renders them.
pub fn build_document(path: &str, bytes: &[u8]) -> (d: Document)
    requires
        decodable_len(bytes@.len()),
    ensures
        d.path@ == path@,
        d.encoding@ == encoding_name(bytes@),
        d.html@ == rendered_html(decoded_text(bytes@)),
        plain_name(path@) ==> d.name@ == path@ && d.dir@ == Seq::<char>::empty(),
        slash_path(path@) ==> d.name@ == name_or_empty(slash_parts(path@)) && d.dir@ == folder_or_empty(path@),
{
    let decoded = decode(bytes);
    let html = render(decoded.text.as_str());
    document_from(path, html, decoded.encoding)
}

/// The message for an empty path.
pub open spec fn empty_path_message() -> Seq<char> {
    "パスが空です"@
}

/// The prefix of the message for a path that cannot be made absolute.
pub open spec fn unresolved_path_prefix() -> Seq<char> {
    "パスを解決できません: "@
}

/// The absolute, normalized form of a path handed over by the front end; a path that is
/// empty or only whitespace is refused.
pub fn to_abs(path: &str) -> (r: Result<String, String>)
    ensures
        trim_seq(path@).len() == 0 ==> (r matches Err(e) && e@ == empty_path_message()),
        r matches Ok(s) ==> trim_seq(path@).len() != 0 && is_resolved(s@),
        r matches Ok(s) ==> (absolute_slash_path(path@) && slash_path(s@) ==> s@ == lexical_form(path@)),
        trim_seq(path@).len() != 0 && r is Err ==> (r matches Err(e) && e@.len()
            >= unresolved_path_prefix().len() && e@.subrange(
            0,
            unresolved_path_prefix().len() as int,
        ) == unresolved_path_prefix()),
{
    let chars = chars_of(path);
    let trimmed = trim_chars(&chars);
    if trimmed.len() == 0 {
        return Err(String::from_str("パスが空です"));
    }
    match normalize_path(path) {
        Ok(p) => Ok(p),
        Err(e) => {
            let prefix = String::from_str("パスを解決できません: ");
            let msg = prefix.concat(e.as_str());
            assert(msg@.subrange(0, unresolved_path_prefix().len() as int) =~= prefix@);
            Err(msg)
        },
    }
}


/// Further attempts at reading a file that an editor may still hold locked.
pub const READ_RETRIES: u32 = 4;

/// Milliseconds to wait between two attempts at reading a file.
pub const READ_RETRY_DELAY_MS: u64 = 100;

/// Whether to read a file again after an attempt failed: never when the file does not
/// exist, and at most `READ_RETRIES` times in all.
pub fn should_retry_read(retries_done: u32, not_found: bool) -> (retry: bool)
    ensures
        retry == (retries_done < READ_RETRIES && !not_found),
{
    retries_done < READ_RETRIES && !not_found
}

/// The Markdown shown in place of a document that can no longer be read.
pub open spec fn read_error_text(path: Seq<char>, error: Seq<char>) -> Seq<char> {
    "# 読み込みエラー\n\n`"@ + path + "` を読み込めませんでした。\n\n```\n"@ + error + "\n```"@
}

/// Builds the Markdown shown in place of the document at `path` when reading it failed
/// with `error`.
pub fn read_error_markdown(path: &str, error: &str) -> (md: String)
    ensures
        md@ == read_error_text(path@, error@),
{
    let head = String::from_str("# 読み込みエラー\n\n`");
    let a = head.concat(path);
    let b = a.concat("` を読み込めませんでした。\n\n```\n");
    let c = b.concat(error);
    c.concat("\n```")
}

// ---------------------------------------------------------------- links

/// `s` starts with `p`.
pub open spec fn seq_starts_with(s: Seq<char>, p: Seq<char>) -> bool {
    p.len() <= s.len() && s.subrange(0, p.len() as int) == p
}

/// Whether `s` starts with the characters of `p`.
pub fn starts_with_text(s: &Vec<char>, p: &str) -> (r: bool)
    ensures
        r == seq_starts_with(s@, p@),
{
    let pc = chars_of(p);
    if pc.len() > s.len() {
        return false;
    }
    let mut i: usize = 0;
    while i < pc.len()
        invariant
            pc@ == p@,
            pc@.len() <= s@.len(),
            i <= pc@.len(),
            forall|j: int| 0 <= j < i ==> s@[j] == pc@[j],
        decreases pc@.len() - i,
    {
        if s[i] != pc[i] {
            assert(s@.subrange(0, pc@.len() as int)[i as int] != pc@[i as int]);
            return false;
        }
        i = i + 1;
    }
    assert(s@.subrange(0, pc@.len() as int) =~= pc@);
    true
}

/// The part of a link before its first `#` or `?`.
pub open spec fn before_fragment(href: Seq<char>) -> Seq<char>
    decreases href.len(),
{
    if href.len() == 0 {
        Seq::empty()
    } else if href[0] == '#' || href[0] == '?' {
        Seq::empty()
    } else {
        seq![href[0]] + before_fragment(href.drop_first())
    }
}

/// The path a relative link names: the part before `#` or `?`, trimmed, then
/// percent-decoded.
pub open spec fn link_path(href: Seq<char>) -> Seq<char> {
    percent_decoded(trim_seq(before_fragment(href)))
}

/// Cuts a link at its first `#` or `?`.
pub fn cut_fragment(href: &str) -> (r: Vec<char>)
    ensures
        r@ == before_fragment(href@),
{
    let cs = chars_of(href);
    let mut out: Vec<char> = Vec::new();
    let mut i: usize = 0;
    assert(cs@.skip(0) =~= cs@);
    assert(out@ + before_fragment(cs@) =~= before_fragment(cs@));
    while i < cs.len() && cs[i] != '#' && cs[i] != '?'
        invariant
            i <= cs@.len(),
            out@ == cs@.subrange(0, i as int),
            forall|j: int| 0 <= j < i ==> cs@[j] != '#' && cs@[j] != '?',
            before_fragment(cs@) == out@ + before_fragment(cs@.skip(i as int)),
        decreases cs@.len() - i,
    {
        assert(cs@.skip(i as int).drop_first() =~= cs@.skip(i + 1));
        out.push(cs[i]);
        assert(out@ =~= cs@.subrange(0, i + 1));
        assert(before_fragment(cs@.skip(i as int)) =~= seq![cs@[i as int]] + before_fragment(
            cs@.skip(i + 1),
        ));
        i = i + 1;
    }
    assert(before_fragment(cs@.skip(i as int)) =~= Seq::<char>::empty());
    assert(cs@.skip(0) =~= cs@);
    out
}

/// `joined` is `rest` joined to `base` by `Path::join`, as far as that is the same on
/// every platform: for `/`-separated paths with `rest` not empty, `rest` itself when it
/// starts with `/`, else `base` and `rest` with a platform separator in between unless
/// `base` is empty or ends with `/`. Of other paths nothing is required.
pub open spec fn joined_path(joined: Seq<char>, base: Seq<char>, rest: Seq<char>) -> bool {
    if slash_path(base) && slash_path(rest) && rest.len() > 0 {
        if rest[0] == '/' {
            joined == rest
        } else if base.len() == 0 || base.last() == '/' {
            joined == base + rest
        } else {
            separator_joined(joined, base, rest)
        }
    } else {
        true
    }
}

/// The path a relative link leads to before normalization: nothing for a link without a
/// path (empty, or only an anchor or query); else the link's path (before `#` or `?`,
/// trimmed, percent-decoded) joined to the document's folder `dir`.
pub fn link_join(dir: &str, href: &str) -> (r: Option<String>)
    ensures
        link_path(href@).len() == 0 ==> r is None,
        link_path(href@).len() > 0 ==> (r matches Some(j) && joined_path(j@, dir@, link_path(href@))),
{
    let cut = cut_fragment(href);
    let trimmed = trim_chars(&cut);
    let cleaned = string_from_chars(trimmed.as_slice());
    let decoded = percent_decode(cleaned.as_str());
    if decoded.as_str().is_empty() {
        return None;
    }
    let joined = join_paths(dir, decoded.as_str());
    assert(joined_path(joined@, dir@, link_path(href@)));
    Some(joined)
}

/// The link target once its path has been normalized: nothing when normalizing failed;
/// else the target when it names a Markdown file by its extension.
pub fn markdown_target(normalized: Result<String, String>) -> (r: Option<String>)
    ensures
        r matches Some(t) ==> normalized == Ok::<String, String>(t),
        normalized is Err ==> r is None,
        normalized matches Ok(t) ==> (r is Some ==> r == Some(t)),
        normalized matches Ok(t) ==> (slash_path(t@) ==> (r is Some <==> is_markdown_path(slash_parts(t@)))),
        normalized matches Ok(t) ==> (plain_name(t@) ==> (r is Some <==> is_markdown_name(t@))),
{
    match normalized {
        Ok(t) => if is_markdown_file(t.as_str()) {
            Some(t)
        } else {
            None
        },
        Err(_) => None,
    }
}

/// Resolves a relative link against the folder of its document: the normalized target
/// when it names a Markdown file by its extension. The link's path is joined to the
/// folder by [`link_join`], normalized (which depends on the current directory and the
/// platform), and checked by [`markdown_target`]. (Whether the file exists is for the
/// caller to check.)
pub fn resolve_link_candidate(dir: &str, href: &str) -> (r: Option<String>)
    ensures
        link_path(href@).len() == 0 ==> r is None,
        r matches Some(t) ==> is_resolved(t@),
        r matches Some(t) ==> (slash_path(t@) ==> is_markdown_path(slash_parts(t@))),
        r matches Some(t) ==> (plain_name(t@) ==> is_markdown_name(t@)),
{
    match link_join(dir, href) {
        None => None,
        Some(joined) => markdown_target(normalize_path(joined.as_str())),
    }
}

/// The schemes that may be handed to the system's default application.
pub open spec fn external_scheme_allowed(url: Seq<char>) -> bool {
    let lower = ascii_lower_seq(trim_seq(url));
    seq_starts_with(lower, "http://"@) || seq_starts_with(lower, "https://"@) || seq_starts_with(
        lower,
        "mailto:"@,
    )
}

/// The message for a URL with another scheme.
pub open spec fn scheme_refused_message() -> Seq<char> {
    "許可されていない URL スキームです"@
}

/// Checks a URL before it is opened externally: only `http://`, `https://` and
/// `mailto:` (ASCII case ignored, surrounding whitespace trimmed) pass, and the trimmed
/// URL is returned.
pub fn check_external_url(url: &str) -> (r: Result<String, String>)
    ensures
        external_scheme_allowed(url@) ==> (r matches Ok(u) && u@ == trim_seq(url@)),
        !external_scheme_allowed(url@) ==> (r matches Err(e) && e@ == scheme_refused_message()),
{
    let cs = chars_of(url);
    let trimmed = trim_chars(&cs);
    let mut lower: Vec<char> = Vec::new();
    let mut i: usize = 0;
    while i < trimmed.len()
        invariant
            i <= trimmed@.len(),
            lower@ == ascii_lower_seq(trimmed@.subrange(0, i as int)),
        decreases trimmed@.len() - i,
    {
        lower.push(to_ascii_lower(trimmed[i]));
        assert(lower@ =~= ascii_lower_seq(trimmed@.subrange(0, i + 1)));
        i = i + 1;
    }
    assert(trimmed@.subrange(0, trimmed@.len() as int) =~= trimmed@);
    let allowed = starts_with_text(&lower, "http://") || starts_with_text(&lower, "https://")
        || starts_with_text(&lower, "mailto:");
    if !allowed {
        return Err(String::from_str("許可されていない URL スキームです"));
    }
    Ok(string_from_chars(trimmed.as_slice()))
}

// ---------------------------------------------------------------- colours

/// The value of a hexadecimal digit, if `c` is one.
pub open spec fn hex_digit_value(c: char) -> Option<nat> {
    if '0' <= c && c <= '9' {
        Some((c as u32 - 48) as nat)
    } else if 'a' <= c && c <= 'f' {
        Some((c as u32 - 87) as nat)
    } else if 'A' <= c && c <= 'F' {
        Some((c as u32 - 55) as nat)
    } else {
        None
    }
}

/// Every character of `s` is a hexadecimal digit.
pub open spec fn all_hex(s: Seq<char>) -> bool {
    forall|i: int| 0 <= i < s.len() ==> #[trigger] hex_digit_value(s[i]) is Some
}

/// The number that a string of hexadecimal digits denotes.
pub open spec fn hex_value(s: Seq<char>) -> nat
    decreases s.len(),
{
    if s.len() == 0 {
        0
    } else {
        hex_value(s.drop_last()) * 16 + match hex_digit_value(s.last()) {
            Some(v) => v,
            None => 0,
        }
    }
}

/// `s` without its leading copies of `c`.
pub open spec fn trim_start_char(s: Seq<char>, c: char) -> Seq<char>
    decreases s.len(),
{
    if s.len() > 0 && s[0] == c {
        trim_start_char(s.drop_first(), c)
    } else {
        s
    }
}

/// The colour `#RRGGBB` as a Windows `COLORREF` (`0x00BBGGRR`): `None` unless, after
/// trimming whitespace and leading `#`s, exactly six hexadecimal digits remain.
pub open spec fn colorref_of(hex: Seq<char>) -> Option<u32> {
    let t = trim_start_char(trim_seq(hex), '#');
    if t.len() == 6 && all_hex(t) {
        let v = hex_value(t);
        let r = (v / 65536) % 256;
        let g = (v / 256) % 256;
        let b = v % 256;
        Some((b * 65536 + g * 256 + r) as u32)
    } else {
        None
    }
}

fn hex_digit(c: char) -> (r: Option<u32>)
    ensures
        r matches Some(v) ==> hex_digit_value(c) == Some(v as nat) && v < 16,
        r is None ==> hex_digit_value(c) is None,
{
    if '0' <= c && c <= '9' {
        Some(c as u32 - 48)
    } else if 'a' <= c && c <= 'f' {
        Some(c as u32 - 87)
    } else if 'A' <= c && c <= 'F' {
        Some(c as u32 - 55)
    } else {
        None
    }
}

proof fn lemma_hex_value_bound(s: Seq<char>)
    requires
        all_hex(s),
    ensures
        hex_value(s) < pow16(s.len()),
    decreases s.len(),
{
    if s.len() > 0 {
        lemma_hex_value_bound(s.drop_last());
        assert(hex_digit_value(s[s.len() - 1]) is Some);
        assert(s.last() == s[s.len() - 1]);
    }
}

/// `16` to the power `n`.
pub open spec fn pow16(n: nat) -> nat
    decreases n,
{
    if n == 0 {
        1
    } else {
        16 * pow16((n - 1) as nat)
    }
}

/// Converts `#RRGGBB` into a Windows `COLORREF` (`0x00BBGGRR`).
pub fn colorref(hex: &str) -> (r: Option<u32>)
    ensures
        r == colorref_of(hex@),
{
    let cs = chars_of(hex);
    let trimmed = trim_chars(&cs);
    let n = trimmed.len();
    let mut start: usize = 0;
    assert(trimmed@.skip(0) =~= trimmed@);
    while start < n && trimmed[start] == '#'
        invariant
            start <= n == trimmed@.len(),
            trim_start_char(trimmed@, '#') == trim_start_char(trimmed@.skip(start as int), '#'),
        decreases n - start,
    {
        assert(trimmed@.skip(start as int).drop_first() =~= trimmed@.skip(start + 1));
        start = start + 1;
    }
    let ghost t = trimmed@.skip(start as int);
    assert(trim_start_char(trimmed@, '#') == t);
    if n - start != 6 {
        return None;
    }
    let first = start;
    let ghost digits = trimmed@.skip(first as int);
    assert(t =~= digits);
    let mut v: u32 = 0;
    let mut i: usize = first;
    while i < n
        invariant
            first <= i <= n == trimmed@.len(),
            n - first <= 6,
            digits == trimmed@.skip(first as int),
            trimmed@ == trim_seq(hex@),
            trim_start_char(trim_seq(hex@), '#') == digits,
            trim_start_char(trim_seq(hex@), '#').len() == 6,
            all_hex(trimmed@.subrange(first as int, i as int)),
            v as nat == hex_value(trimmed@.subrange(first as int, i as int)),
            v < pow16((i - first) as nat),
        decreases n - i,
    {
        let d = match hex_digit(trimmed[i]) {
            Some(d) => d,
            None => {
                assert(digits[i - first] == trimmed@[i as int]);
                assert(hex_digit_value(digits[i - first]) is None);
                assert(!all_hex(digits));
                return None;
            },
        };
        let ghost prev = trimmed@.subrange(first as int, i as int);
        let ghost next = trimmed@.subrange(first as int, i + 1);
        assert(next.drop_last() =~= prev);
        assert(pow16((i + 1 - first) as nat) == 16 * pow16((i - first) as nat));
        assert(pow16((i - first) as nat) <= pow16(5)) by {
            lemma_pow16_mono((i - first) as nat, 5);
        }
        assert(pow16(5) == 1048576) by {
            reveal_with_fuel(pow16, 6);
        }
        v = v * 16 + d;
        assert forall|k: int| 0 <= k < next.len() implies #[trigger] hex_digit_value(next[k]) is Some by {
            if k < prev.len() {
                assert(next[k] == prev[k]);
            }
        }
        i = i + 1;
    }
    assert(trimmed@.subrange(first as int, n as int) =~= digits);
    let red = (v / 65536) % 256;
    let green = (v / 256) % 256;
    let blue = v % 256;
    Some(blue * 65536 + green * 256 + red)
}

proof fn lemma_pow16_mono(a: nat, b: nat)
    requires
        a <= b,
    ensures
        pow16(a) <= pow16(b),
    decreases b,
{
    if a < b {
        lemma_pow16_mono(a, (b - 1) as nat);
    }
}

// ---------------------------------------------------------------- command line

/// The outcomes of normalizing paths: the path, or `None` where it failed.
pub open spec fn outcomes_view(rs: Seq<Result<String, String>>) -> Seq<Option<Seq<char>>> {
    rs.map_values(|r: Result<String, String>| match r {
        Ok(s) => Some(s@),
        Err(_) => None,
    })
}

/// The paths among `outs` that were normalized, in order.
pub open spec fn ok_values(outs: Seq<Option<Seq<char>>>) -> Seq<Seq<char>>
    decreases outs.len(),
{
    if outs.len() == 0 {
        Seq::empty()
    } else {
        let rest = ok_values(outs.drop_last());
        match outs.last() {
            Some(p) => rest.push(p),
            None => rest,
        }
    }
}

/// Each path in `ok_values(outs)` is one of the outcomes.
proof fn lemma_ok_values_from(outs: Seq<Option<Seq<char>>>)
    ensures
        forall|k: int|
            0 <= k < ok_values(outs).len() ==> exists|j: int|
                0 <= j < outs.len() && outs[j] == Some(#[trigger] ok_values(outs)[k]),
    decreases outs.len(),
{
    if outs.len() > 0 {
        let p = outs.drop_last();
        lemma_ok_values_from(p);
        assert forall|k: int| 0 <= k < ok_values(outs).len() implies exists|j: int|
            0 <= j < outs.len() && outs[j] == Some(#[trigger] ok_values(outs)[k]) by {
            if k < ok_values(p).len() {
                let j = choose|j: int| 0 <= j < p.len() && p[j] == Some(ok_values(p)[k]);
                assert(outs[j] == p[j]);
            } else {
                assert(outs[outs.len() - 1] == outs.last());
            }
        }
    }
}

/// Keeps the paths that could be normalized, in order, and drops the failures.
pub fn keep_resolved(outcomes: Vec<Result<String, String>>) -> (files: Vec<String>)
    ensures
        files@.map_values(|s: String| s@) == ok_values(outcomes_view(outcomes@)),
{
    let ghost ov = outcomes_view(outcomes@);
    let mut files: Vec<String> = Vec::new();
    let mut i: usize = 0;
    while i < outcomes.len()
        invariant
            i <= outcomes@.len(),
            ov == outcomes_view(outcomes@),
            files@.map_values(|s: String| s@) == ok_values(ov.subrange(0, i as int)),
        decreases outcomes@.len() - i,
    {
        let ghost before = files@.map_values(|s: String| s@);
        assert(ov.subrange(0, i + 1).drop_last() =~= ov.subrange(0, i as int));
        assert(ov.subrange(0, i + 1).last() == ov[i as int]);
        match &outcomes[i] {
            Ok(p) => {
                files.push(p.clone());
                assert(files@.map_values(|s: String| s@) =~= before.push(p@));
            },
            Err(_) => {},
        }
        i = i + 1;
    }
    assert(ov.subrange(0, outcomes@.len() as int) =~= ov);
    files
}

/// The arguments that are not options (do not start with `-`), in order.
pub open spec fn path_arg_list(args: Seq<Seq<char>>) -> Seq<Seq<char>>
    decreases args.len(),
{
    if args.len() == 0 {
        Seq::empty()
    } else {
        let rest = path_arg_list(args.drop_last());
        let last = args.last();
        if last.len() > 0 && last[0] == '-' {
            rest
        } else {
            rest.push(last)
        }
    }
}

/// `handed` is the path that a command-line argument `arg` names: the argument itself
/// without a base folder; with one, `arg` joined to it (an absolute `arg` stays as it is).
pub open spec fn handed_path(handed: Seq<char>, arg: Seq<char>, base: Option<Seq<char>>) -> bool {
    match base {
        None => handed == arg,
        Some(b) => joined_path(handed, b, arg),
    }
}

/// The paths that the command-line arguments name, in order: options (arguments starting
/// with `-`) are skipped, and relative paths are taken from `base` when one is given.
pub fn command_line_paths(args: &Vec<String>, base: &Option<String>) -> (paths: Vec<String>)
    ensures
        paths@.len() == path_arg_list(args@.map_values(|a: String| a@)).len(),
        forall|j: int|
            0 <= j < paths@.len() ==> handed_path(
                #[trigger] paths@[j]@,
                path_arg_list(args@.map_values(|a: String| a@))[j],
                opt_text(*base),
            ),
{
    let ghost av = args@.map_values(|a: String| a@);
    let ghost bv = opt_text(*base);
    let mut paths: Vec<String> = Vec::new();
    let mut i: usize = 0;
    while i < args.len()
        invariant
            i <= args@.len(),
            av == args@.map_values(|a: String| a@),
            bv == opt_text(*base),
            paths@.len() == path_arg_list(av.subrange(0, i as int)).len(),
            forall|j: int|
                0 <= j < paths@.len() ==> handed_path(
                    #[trigger] paths@[j]@,
                    path_arg_list(av.subrange(0, i as int))[j],
                    bv,
                ),
        decreases args@.len() - i,
    {
        let ghost prev = path_arg_list(av.subrange(0, i as int));
        assert(av.subrange(0, i + 1).drop_last() =~= av.subrange(0, i as int));
        assert(av.subrange(0, i + 1).last() == args@[i as int]@);
        let arg = args[i].as_str();
        let cs = chars_of(arg);
        let is_option = cs.len() > 0 && cs[0] == '-';
        if !is_option {
            let path = match base {
                Some(b) => if is_absolute_path(arg) {
                    String::from_str(arg)
                } else {
                    join_paths(b.as_str(), arg)
                },
                None => String::from_str(arg),
            };
            assert(handed_path(path@, arg@, bv));
            paths.push(path);
            assert forall|j: int| 0 <= j < paths@.len() implies handed_path(
                #[trigger] paths@[j]@,
                path_arg_list(av.subrange(0, i + 1))[j],
                bv,
            ) by {
                if j < prev.len() {
                    assert(path_arg_list(av.subrange(0, i + 1))[j] == prev[j]);
                }
            }
        }
        i = i + 1;
    }
    assert(av.subrange(0, args@.len() as int) =~= av);
    paths
}

/// Turns command-line arguments into candidate files to open: the paths that
/// [`command_line_paths`] names, each normalized (which depends on the current directory
/// and the platform); those that cannot be are dropped, and the rest kept in order by
/// [`keep_resolved`]. Whether the files exist is for the caller to check.
pub fn candidate_files(args: Vec<String>, base: Option<String>) -> (files: Vec<String>)
    ensures
        exists|outs: Seq<Option<Seq<char>>>|
            #![trigger ok_values(outs)]
            outs.len() == path_arg_list(args@.map_values(|a: String| a@)).len()
                && files@.map_values(|s: String| s@) == ok_values(outs) && (forall|j: int|
                0 <= j < outs.len() ==> (#[trigger] outs[j] matches Some(p) ==> is_resolved(p))),
        forall|j: int| 0 <= j < files@.len() ==> is_resolved(#[trigger] files@[j]@),
{
    let paths = command_line_paths(&args, &base);
    let mut outcomes: Vec<Result<String, String>> = Vec::new();
    let mut i: usize = 0;
    while i < paths.len()
        invariant
            i <= paths@.len(),
            outcomes@.len() == i,
            forall|j: int| 0 <= j < i ==> (#[trigger] outcomes@[j] matches Ok(p) ==> is_resolved(p@)),
        decreases paths@.len() - i,
    {
        outcomes.push(normalize_path(paths[i].as_str()));
        i = i + 1;
    }
    let ghost ov = outcomes_view(outcomes@);
    assert forall|j: int| 0 <= j < ov.len() implies (#[trigger] ov[j] matches Some(p) ==> is_resolved(p)) by {
        assert(outcomes@[j] matches Ok(p) ==> is_resolved(p@));
    }
    let files = keep_resolved(outcomes);
    proof {
        lemma_ok_values_from(ov);
    }
    assert(files@.map_values(|s: String| s@) == ok_values(ov));
    assert forall|j: int| 0 <= j < files@.len() implies is_resolved(#[trigger] files@[j]@) by {
        assert(files@.map_values(|s: String| s@)[j] == files@[j]@);
    }
    files
}

} // verus!
