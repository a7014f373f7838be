//! Serving local files (mostly images) next to the open documents through the custom
//! `mdfile` URL scheme.

use vstd::prelude::*;

use crate::keyed::str_eq;
use crate::paths::{
    extension_of, extension_text, file_name_part, file_name_text, parts_view, path_components,
    plain_name, slash_parts, slash_path, PartView,
};
use crate::state::{allowed_in, is_resolved, key_of, normalize_path, AppState, DocsView};
use crate::text::{ascii_lower_seq, chars_of, percent_decode, percent_decoded, string_from_chars, to_ascii_lower};

verus! {

/// The media type served for a lowercase file extension.
pub open spec fn mime_of_ext(e: Seq<char>) -> Seq<char> {
    if e == "png"@ {
        "image/png"@
    } else if e == "jpg"@ || e == "jpeg"@ {
        "image/jpeg"@
    } else if e == "gif"@ {
        "image/gif"@
    } else if e == "svg"@ {
        "image/svg+xml"@
    } else if e == "webp"@ {
        "image/webp"@
    } else if e == "bmp"@ {
        "image/bmp"@
    } else if e == "ico"@ {
        "image/x-icon"@
    } else if e == "avif"@ {
        "image/avif"@
    } else if e == "tif"@ || e == "tiff"@ {
        "image/tiff"@
    } else {
        "application/octet-stream"@
    }
}

/// The media type for a file extension, ASCII case ignored.
pub fn mime_for_extension(ext: &str) -> (m: &'static str)
    ensures
        m@ == mime_of_ext(ascii_lower_seq(ext@)),
{
    let cs = chars_of(ext);
    let mut lower: Vec<char> = Vec::new();
    let mut i: usize = 0;
    while i < cs.len()
        invariant
            i <= cs@.len(),
            lower@ == ascii_lower_seq(cs@.subrange(0, i as int)),
        decreases cs@.len() - i,
    {
        lower.push(to_ascii_lower(cs[i]));
        assert(lower@ =~= ascii_lower_seq(cs@.subrange(0, i + 1)));
        i = i + 1;
    }
    assert(cs@.subrange(0, cs@.len() as int) =~= cs@);
    let l = string_from_chars(lower.as_slice());
    let e = l.as_str();
    if str_eq(e, "png") {
        "image/png"
    } else if str_eq(e, "jpg") || str_eq(e, "jpeg") {
        "image/jpeg"
    } else if str_eq(e, "gif") {
        "image/gif"
    } else if str_eq(e, "svg") {
        "image/svg+xml"
    } else if str_eq(e, "webp") {
        "image/webp"
    } else if str_eq(e, "bmp") {
        "image/bmp"
    } else if str_eq(e, "ico") {
        "image/x-icon"
    } else if str_eq(e, "avif") {
        "image/avif"
    } else if str_eq(e, "tif") || str_eq(e, "tiff") {
        "image/tiff"
    } else {
        "application/octet-stream"
    }
}

/// The extension of a path's final name, or nothing.
pub open spec fn path_extension(parts: Seq<PartView>) -> Seq<char> {
    match file_name_part(parts) {
        Some(n) => match extension_of(n) {
            Some(e) => e,
            None => Seq::empty(),
        },
        None => Seq::empty(),
    }
}

/// The media type of a file, chosen by its extension (ASCII case ignored); unknown
/// extensions are served as `application/octet-stream`.
pub fn mime_for(path: &str) -> (m: &'static str)
    ensures
        exists|parts: Seq<PartView>| m@ == #[trigger] mime_of_ext(ascii_lower_seq(path_extension(parts))),
        slash_path(path@) ==> m@ == mime_of_ext(ascii_lower_seq(path_extension(slash_parts(path@)))),
        plain_name(path@) ==> m@ == mime_of_ext(ascii_lower_seq(
            match extension_of(path@) {
                Some(e) => e,
                None => Seq::<char>::empty(),
            },
        )),
{
    let parts = path_components(path);
    let ext = match file_name_text(&parts) {
        Some(name) => match extension_text(name.as_str()) {
            Some(e) => e,
            None => String::new(),
        },
        None => String::new(),
    };
    let m = mime_for_extension(ext.as_str());
    assert(ext@ == path_extension(parts_view(parts@)));
    m
}


/// What to answer a request for a local file.
pub enum ServeDecision {
    /// 400: the request names no usable path.
    BadRequest,
    /// 403: the file lies outside every open document's folder.
    Forbidden,
    /// Read the file at `path` and answer 200 with media type `mime` (404 if it cannot be
    /// read).
    Serve { path: String, mime: &'static str },
}

/// `s` without its leading `/`s.
pub open spec fn trim_leading_slashes(s: Seq<char>) -> Seq<char>
    decreases s.len(),
{
    if s.len() > 0 && s[0] == '/' {
        trim_leading_slashes(s.drop_first())
    } else {
        s
    }
}

/// The file path a request names: the URL path without leading `/`, percent-decoded.
pub open spec fn requested_path(uri_path: Seq<char>) -> Seq<char> {
    percent_decoded(trim_leading_slashes(uri_path))
}

/// The file path a request names: the URL path without its leading `/`s,
/// percent-decoded.
pub fn requested_file(uri_path: &str) -> (p: String)
    ensures
        p@ == requested_path(uri_path@),
{
    let cs = chars_of(uri_path);
    let n = cs.len();
    let mut start: usize = 0;
    assert(cs@.skip(0) =~= cs@);
    while start < n && cs[start] == '/'
        invariant
            start <= n == cs@.len(),
            cs@ == uri_path@,
            trim_leading_slashes(cs@) == trim_leading_slashes(cs@.skip(start as int)),
        decreases n - start,
    {
        assert(cs@.skip(start as int).drop_first() =~= cs@.skip(start + 1));
        start = start + 1;
    }
    let mut rest: Vec<char> = Vec::new();
    let mut i: usize = start;
    while i < n
        invariant
            start <= i <= n == cs@.len(),
            rest@ == cs@.subrange(start as int, i as int),
        decreases n - i,
    {
        rest.push(cs[i]);
        assert(rest@ =~= cs@.subrange(start as int, i + 1));
        i = i + 1;
    }
    assert(rest@ =~= cs@.skip(start as int));
    let raw = string_from_chars(rest.as_slice());
    percent_decode(raw.as_str())
}

/// The answer owed for a requested file once its path has been normalized: `None` when
/// it could not be, a bad request; a path outside the folders of the open documents is
/// forbidden; any other is served under that path.
pub open spec fn serve_matches(v: DocsView, sep: char, normalized: Option<Seq<char>>, d: ServeDecision) -> bool {
    match normalized {
        None => d is BadRequest,
        Some(p) => if allowed_in(v, key_of(p, sep), sep) {
            &&& d matches ServeDecision::Serve { path, mime } && path@ == p && (slash_path(p)
                ==> mime@ == mime_of_ext(ascii_lower_seq(path_extension(slash_parts(p)))))
        } else {
            d is Forbidden
        },
    }
}

/// Decides the answer for a requested file from the outcome of normalizing its path.
pub fn serve_normalized(state: &AppState, normalized: Result<String, String>) -> (d: ServeDecision)
    requires
        state.wf(),
    ensures
        serve_matches(
            state.docs_view(),
            state.separator(),
            match normalized {
                Ok(p) => Some(p@),
                Err(_) => None,
            },
            d,
        ),
{
    let path = match normalized {
        Ok(p) => p,
        Err(_) => return ServeDecision::BadRequest,
    };
    if !state.is_allowed(path.as_str()) {
        return ServeDecision::Forbidden;
    }
    let mime = mime_for(path.as_str());
    ServeDecision::Serve { path, mime }
}

/// Decides how to answer a request for the URL path `uri_path`: an empty path is a bad
/// request, as is one that cannot be made absolute; a path outside the folders of the
/// open documents is forbidden; anything else is served with the media type of its
/// extension.
pub fn serve_decision(state: &AppState, uri_path: &str) -> (d: ServeDecision)
    requires
        state.wf(),
    ensures
        requested_path(uri_path@).len() == 0 ==> d is BadRequest,
        d matches ServeDecision::Serve { path, mime } ==> is_resolved(path@) && allowed_in(
            state.docs_view(),
            key_of(path@, state.separator()),
            state.separator(),
        ),
        d is Forbidden ==> requested_path(uri_path@).len() > 0,
        requested_path(uri_path@).len() > 0 ==> exists|normalized: Option<Seq<char>>|
            (normalized matches Some(p) ==> is_resolved(p)) && #[trigger] serve_matches(
                state.docs_view(),
                state.separator(),
                normalized,
                d,
            ),
{
    let decoded = requested_file(uri_path);
    if decoded.as_str().is_empty() {
        return ServeDecision::BadRequest;
    }
    let normalized = normalize_path(decoded.as_str());
    let ghost outcome = match &normalized {
        Ok(p) => Some(p@),
        Err(_) => None::<Seq<char>>,
    };
    let d = serve_normalized(state, normalized);
    assert(serve_matches(state.docs_view(), state.separator(), outcome, d));
    d
}

} // verus!
