//! Shared application state: the open documents, the folders from which local files
//! may be served, and the files handed over at start-up; plus path normalisation and the
//! keys by which paths are compared.

use vstd::prelude::*;

use crate::paths::{
    absolute, join_parts, join_path, main_separator, normalize_parts, parent_parts, parent_slice, path_parent,
    drive_form, is_verbatim, lemma_backslash_rooted_not_slash, lemma_resolve_clean, part_ok, parts_clean,
    parts_view, path_components, resolve_parts, resolved_path, rooted, unc_form,
    slash_parts, slash_path, PartView, PathPart,
};
use crate::keyed::{
    distinct_keys, find_key, keyed_map, lemma_keyed_map, lemma_keyed_map_push, lemma_keyed_map_remove,
    lemma_keyed_map_update,
};
use crate::text::{lowercase_str, str_lowercase};
use vstd::string::StringExecFns;

verus! {

// ---------------------------------------------------------------- path keys

/// The folder key of the parent of a `/`-separated path.
pub open spec fn folder_key(path: Seq<char>, sep: char) -> Option<Seq<char>> {
    match parent_slice(path) {
        Some(d) => Some(dir_key_of(d, sep)),
        None => None,
    }
}

/// The lexical form of the path made of `parts`: `.` dropped, each `..` removing the
/// name before it, the rest joined with `sep`.
pub fn lexical_path(parts: &Vec<PathPart>, sep: char) -> (s: String)
    ensures
        s@ == join_parts(resolve_parts(parts_view(parts@)), sep),
{
    let normal = normalize_parts(parts);
    join_path(&normal, sep)
}

/// An absolute `/`-separated path (so the same on every platform).
pub open spec fn absolute_slash_path(p: Seq<char>) -> bool {
    slash_path(p) && p.len() > 0 && p[0] == '/'
}

/// The lexical resolution of a `/`-separated path: its components with each `.` dropped
/// and each `..` removing the name before it (never the root), joined with `/`.
pub open spec fn lexical_form(p: Seq<char>) -> Seq<char> {
    join_parts(resolve_parts(slash_parts(p)), '/')
}

/// A resolved path for the separator `/` or `\`: no `.` or `..` component can hide in
/// it.
pub open spec fn is_resolved(s: Seq<char>) -> bool {
    exists|sep: char| (sep == '/' || sep == '\\') && #[trigger] resolved_path(s, sep)
}

/// Makes a path absolute (from the current directory) and resolves `.` and `..`
/// lexically; symbolic links are not followed and the file system is not read. Making
/// the path absolute is `std::path::absolute`, whose outcome depends on the current
/// directory and the platform; its components are checked to be in the form
/// `Path::components` documents, and [`lexical_path`] resolves them. An empty path is
/// refused; a result is a resolved path, free of `.` and `..`.
pub fn normalize_path(path: &str) -> (r: Result<String, String>)
    ensures
        path@.len() == 0 ==> r is Err,
        r matches Ok(s) ==> is_resolved(s@),
        r matches Ok(s) ==> (absolute_slash_path(path@) && slash_path(s@) ==> s@ == lexical_form(path@)),
{
    let abs = match absolute(path) {
        Ok(a) => a,
        Err(e) => return Err(e),
    };
    let parts = path_components(abs.as_str());
    let sep = main_separator();
    let rooted_ok = parts.len() > 0 && match &parts[0] {
        PathPart::Root => true,
        PathPart::Prefix(_) => true,
        _ => false,
    };
    if !parts_clean(&parts, sep) || !rooted_ok {
        return Err(String::from_str("パスの構成要素が想定外です"));
    }
    let s = lexical_path(&parts, sep);
    proof {
        let pv = parts_view(parts@);
        assert(pv[0] == parts@[0]@);
        assert(rooted(pv));
        lemma_resolve_clean(pv, sep);
        assert(resolved_path(s@, sep));
        if sep == '\\' {
            lemma_backslash_rooted_not_slash(resolve_parts(pv));
        } else if absolute_slash_path(path@) {
            assert(part_ok(pv[0], 0, sep, is_verbatim(pv)));
            assert(pv[0] is Root);
            assert(!(drive_form(abs@) || unc_form(abs@)));
            assert(pv == slash_parts(abs@));
        }
    }
    let r: Result<String, String> = Ok(s);
    assert(r matches Ok(t) && resolved_path(t@, sep) && (sep == '/' || sep == '\\'));
    r
}

/// The comparison key of a path on a platform whose separator is `sep`: on Windows
/// (separator `\`) case is ignored, so the key is the lowercased path; elsewhere it is
/// the path itself.
pub open spec fn key_of(path: Seq<char>, sep: char) -> Seq<char> {
    if sep == '\\' {
        str_lowercase(path)
    } else {
        path
    }
}

/// `s` without the copies of `c` at its end.
pub open spec fn trim_end_char(s: Seq<char>, c: char) -> Seq<char>
    decreases s.len(),
{
    if s.len() > 0 && s.last() == c {
        trim_end_char(s.drop_last(), c)
    } else {
        s
    }
}

/// The key of a folder: its path key without trailing separators (a root such as
/// `C:\` becomes `c:`).
pub open spec fn dir_key_of(dir: Seq<char>, sep: char) -> Seq<char> {
    trim_end_char(key_of(dir, sep), sep)
}

/// The key of `path` for the separator `sep`.
pub fn path_key_with(path: &str, sep: char) -> (key: String)
    ensures
        key@ == key_of(path@, sep),
{
    if sep == '\\' {
        lowercase_str(path)
    } else {
        String::from_str(path)
    }
}

/// The folder key of `dir` for the separator `sep`.
pub fn dir_key_with(dir: &str, sep: char) -> (key: String)
    ensures
        key@ == dir_key_of(dir@, sep),
{
    let key = path_key_with(dir, sep);
    let cs = crate::text::chars_of(key.as_str());
    let mut n: usize = cs.len();
    assert(cs@.subrange(0, n as int) =~= cs@);
    while n > 0 && cs[n - 1] == sep
        invariant
            n <= cs@.len(),
            trim_end_char(cs@, sep) == trim_end_char(cs@.subrange(0, n as int), sep),
        decreases n,
    {
        assert(cs@.subrange(0, n as int).drop_last() =~= cs@.subrange(0, n - 1));
        n = n - 1;
    }
    let mut out: Vec<char> = Vec::new();
    let mut i: usize = 0;
    while i < n
        invariant
            i <= n <= cs@.len(),
            out@ == cs@.subrange(0, i as int),
        decreases n - i,
    {
        out.push(cs[i]);
        assert(out@ =~= cs@.subrange(0, i + 1));
        i = i + 1;
    }
    crate::text::string_from_chars(out.as_slice())
}

/// The key by which paths are compared: case is ignored on Windows.
pub fn path_key(path: &str) -> (key: String)
    ensures
        exists|sep: char| (sep == '/' || sep == '\\') && key@ == key_of(path@, sep),
{
    path_key_with(path, main_separator())
}

/// The key of a folder: its path key without trailing separators.
pub fn dir_key(dir: &str) -> (key: String)
    ensures
        exists|sep: char| (sep == '/' || sep == '\\') && key@ == dir_key_of(dir@, sep),
{
    dir_key_with(dir, main_separator())
}


// ---------------------------------------------------------------- documents

/// The list of files handed over together to be opened.
pub struct OpenFiles {
    pub paths: Vec<String>,
}

/// The open documents (key to folder key) and the folders from which local files may
/// be served (folder key to the number of open documents in it).
pub struct DocsView {
    pub docs: Map<Seq<char>, Option<Seq<char>>>,
    pub dirs: Map<Seq<char>, nat>,
}

/// The state after opening the document `key` whose folder key is `dir`: nothing
/// changes if it is open already; else it is recorded and its folder counts one more.
pub open spec fn registered(v: DocsView, key: Seq<char>, dir: Option<Seq<char>>) -> DocsView {
    if v.docs.contains_key(key) {
        v
    } else {
        DocsView {
            docs: v.docs.insert(key, dir),
            dirs: match dir {
                Some(d) => v.dirs.insert(
                    d,
                    if v.dirs.contains_key(d) {
                        v.dirs[d] + 1
                    } else {
                        1
                    },
                ),
                None => v.dirs,
            },
        }
    }
}

/// The state after closing the document `key`: nothing changes if it is not open; else
/// it is forgotten and its folder counts one less, the folder being dropped at zero.
pub open spec fn unregistered(v: DocsView, key: Seq<char>) -> DocsView {
    if !v.docs.contains_key(key) {
        v
    } else {
        DocsView {
            docs: v.docs.remove(key),
            dirs: match v.docs[key] {
                Some(d) => if v.dirs.contains_key(d) {
                    if v.dirs[d] <= 1 {
                        v.dirs.remove(d)
                    } else {
                        v.dirs.insert(d, (v.dirs[d] - 1) as nat)
                    }
                } else {
                    v.dirs
                },
                None => v.dirs,
            },
        }
    }
}

/// `key` names a file strictly inside the folder `dir` (in a subfolder too): the folder
/// key, then a separator, then more.
pub open spec fn under(key: Seq<char>, dir: Seq<char>, sep: char) -> bool {
    &&& key.len() > dir.len()
    &&& key.subrange(0, dir.len() as int) == dir
    &&& key[dir.len() as int] == sep
}

/// Some allowed folder contains `key`.
pub open spec fn allowed_in(v: DocsView, key: Seq<char>, sep: char) -> bool {
    exists|d: Seq<char>| #[trigger] v.dirs.contains_key(d) && under(key, d, sep)
}

/// Number of documents in the list whose folder is `d`.
pub open spec fn docs_in_dir(s: Seq<(Seq<char>, Option<Seq<char>>)>, d: Seq<char>) -> nat
    decreases s.len(),
{
    if s.len() == 0 {
        0
    } else {
        docs_in_dir(s.drop_last(), d) + if s.last().1 == Some(d) {
            1nat
        } else {
            0nat
        }
    }
}

proof fn lemma_docs_in_dir_bound(s: Seq<(Seq<char>, Option<Seq<char>>)>, d: Seq<char>)
    ensures
        docs_in_dir(s, d) <= s.len(),
        docs_in_dir(s, d) > 0 <==> exists|i: int| 0 <= i < s.len() && s[i].1 == Some(d),
    decreases s.len(),
{
    if s.len() > 0 {
        let p = s.drop_last();
        lemma_docs_in_dir_bound(p, d);
        if exists|i: int| 0 <= i < s.len() && s[i].1 == Some(d) {
            let i = choose|i: int| 0 <= i < s.len() && s[i].1 == Some(d);
            if i < s.len() - 1 {
                assert(p[i] == s[i]);
            }
        }
        if exists|i: int| 0 <= i < p.len() && p[i].1 == Some(d) {
            let i = choose|i: int| 0 <= i < p.len() && p[i].1 == Some(d);
            assert(s[i] == p[i]);
        }
    }
}

proof fn lemma_docs_in_dir_remove(s: Seq<(Seq<char>, Option<Seq<char>>)>, i: int, d: Seq<char>)
    requires
        0 <= i < s.len(),
    ensures
        docs_in_dir(s, d) == docs_in_dir(s.remove(i), d) + if s[i].1 == Some(d) {
            1nat
        } else {
            0nat
        },
    decreases s.len(),
{
    if i == s.len() - 1 {
        assert(s.remove(i) =~= s.drop_last());
    } else {
        let p = s.drop_last();
        lemma_docs_in_dir_remove(p, i, d);
        assert(s.remove(i).drop_last() =~= p.remove(i));
        assert(s.remove(i).last() == s.last());
        assert(p[i] == s[i]);
    }
}

/// Files to open on their way to the front end: those waiting for it, and whether it is
/// ready to receive files as events.
pub struct Handover {
    pub pending: Seq<String>,
    pub ready: bool,
}

/// The front end takes the waiting files: nothing waits any more and it is ready.
pub open spec fn take_step(h: Handover) -> (Handover, Seq<String>) {
    (Handover { pending: Seq::empty(), ready: true }, h.pending)
}

/// Files arrive to be opened: nothing happens for none; they are sent at once when the
/// front end is ready, else they wait with the others.
pub open spec fn deliver_step(h: Handover, files: Seq<String>) -> (Handover, Option<Seq<String>>) {
    if files.len() == 0 {
        (h, None)
    } else if h.ready {
        (h, Some(files))
    } else {
        (Handover { pending: h.pending + files, ready: false }, None)
    }
}

/// Start-up files are handed over once and none is lost: what arrives before the front
/// end is ready is all among the files it takes, after the earlier ones; once it has
/// taken them nothing waits, a second take gets nothing, and every later non-empty list
/// is sent at once.
pub proof fn lemma_startup_handover(h: Handover, early: Seq<String>, late: Seq<String>)
    ensures
        !h.ready ==> take_step(deliver_step(h, early).0).1 == h.pending + early,
        take_step(h).1 == h.pending,
        take_step(h).0.ready,
        take_step(take_step(h).0).1.len() == 0,
        late.len() > 0 ==> deliver_step(take_step(h).0, late) == (take_step(h).0, Some(late)),
{
    if early.len() == 0 {
        assert(h.pending + early =~= h.pending);
    }
}

/// Shared state of the application.
pub struct AppState {
    startup_files: Vec<String>,
    frontend_ready: bool,
    docs: Vec<(String, Option<String>)>,
    allowed_dirs: Vec<(String, usize)>,
    sep: char,
}

/// The value of an optional string.
pub open spec fn opt_view(o: Option<String>) -> Option<Seq<char>> {
    match o {
        Some(s) => Some(s@),
        None => None,
    }
}

impl AppState {
    /// Files passed at start-up (or by a later launch) not yet handed to the front end.
    pub closed spec fn pending_files(&self) -> Seq<String> {
        self.startup_files@
    }

    /// Whether the front end has taken the start-up files and now receives files as
    /// events.
    pub closed spec fn ready(&self) -> bool {
        self.frontend_ready
    }

    /// The files waiting for the front end, and whether it is ready.
    pub open spec fn handover(&self) -> Handover {
        Handover { pending: self.pending_files(), ready: self.ready() }
    }

    /// The open documents as pairs of key and folder key.
    pub closed spec fn doc_pairs(&self) -> Seq<(Seq<char>, Option<Seq<char>>)> {
        self.docs@.map_values(|p: (String, Option<String>)| (p.0@, opt_view(p.1)))
    }

    /// The allowed folders as pairs of key and count.
    pub closed spec fn dir_pairs(&self) -> Seq<(Seq<char>, nat)> {
        self.allowed_dirs@.map_values(|p: (String, usize)| (p.0@, p.1 as nat))
    }

    /// The path separator of the platform, read once when the state was made.
    pub closed spec fn separator(&self) -> char {
        self.sep
    }

    /// Documents and allowed folders as maps.
    pub open spec fn docs_view(&self) -> DocsView {
        DocsView { docs: keyed_map(self.doc_pairs()), dirs: keyed_map(self.dir_pairs()) }
    }

    /// Keys are distinct; each allowed folder counts exactly the open documents in it,
    /// at least one; the separator is `/` or `\`.
    pub closed spec fn wf(&self) -> bool {
        &&& distinct_keys(self.doc_pairs())
        &&& distinct_keys(self.dir_pairs())
        &&& forall|i: int|
            0 <= i < self.dir_pairs().len() ==> #[trigger] self.dir_pairs()[i].1 == docs_in_dir(
                self.doc_pairs(),
                self.dir_pairs()[i].0,
            ) && self.dir_pairs()[i].1 >= 1
        &&& forall|d: Seq<char>|
            docs_in_dir(self.doc_pairs(), d) > 0 ==> #[trigger] keyed_map(
                self.dir_pairs(),
            ).contains_key(d)
        &&& (self.sep == '/' || self.sep == '\\')
    }

    /// A state with the given start-up files, no open document and the front end not
    /// ready yet.
    pub fn new(startup_files: Vec<String>) -> (r: AppState)
        ensures
            r.wf(),
            r.pending_files() == startup_files@,
            !r.ready(),
            r.docs_view().docs == Map::<Seq<char>, Option<Seq<char>>>::empty(),
            r.docs_view().dirs == Map::<Seq<char>, nat>::empty(),
    {
        let r = AppState {
            startup_files,
            frontend_ready: false,
            docs: Vec::new(),
            allowed_dirs: Vec::new(),
            sep: main_separator(),
        };
        assert(r.doc_pairs() =~= Seq::empty());
        assert(r.dir_pairs() =~= Seq::empty());
        r
    }

    /// Records the document `key` with folder key `dir`, unless it is open already.
    /// Returns whether it was newly recorded.
    pub fn register_key(&mut self, key: String, dir: Option<String>) -> (added: bool)
        requires
            old(self).wf(),
        ensures
            final(self).wf(),
            added == !old(self).docs_view().docs.contains_key(key@),
            final(self).docs_view() == registered(old(self).docs_view(), key@, opt_view(dir)),
            final(self).separator() == old(self).separator(),
            final(self).pending_files() == old(self).pending_files(),
            final(self).ready() == old(self).ready(),
    {
        proof {
            lemma_keyed_map(self.doc_pairs());
            lemma_keyed_map(self.dir_pairs());
        }
        if let Some(_) = find_key(&self.docs, key.as_str()) {
            assert(keyed_map(self.doc_pairs()).contains_key(key@)) by {
                let i = choose|i: int| 0 <= i < self.docs@.len() && self.docs@[i].0@ == key@;
                assert(self.doc_pairs()[i].0 == key@);
            }
            return false;
        }
        assert(!keyed_map(self.doc_pairs()).contains_key(key@)) by {
            if keyed_map(self.doc_pairs()).contains_key(key@) {
                let i = choose|i: int|
                    0 <= i < self.doc_pairs().len() && self.doc_pairs()[i].0 == key@;
                assert(self.docs@[i].0@ == key@);
            }
        }
        let ghost old_docs = self.doc_pairs();
        let ghost old_dirs = self.dir_pairs();
        let ghost dv = opt_view(dir);
        let copy: Option<String> = match &dir {
            Some(d) => Some(d.clone()),
            None => None,
        };
        self.docs.push((key, copy));
        let total = self.docs.len();
        proof {
            assert(self.doc_pairs() =~= old_docs.push((key@, dv)));
            lemma_keyed_map_push(old_docs, key@, dv);
            lemma_docs_in_dir_bound(old_docs, key@);
        }
        match dir {
            Some(d) => {
                match find_key(&self.allowed_dirs, d.as_str()) {
                    Some(i) => {
                        let c = self.allowed_dirs[i].1;
                        proof {
                            assert(old_dirs[i as int].1 == c);
                            assert(old_dirs[i as int].0 == d@);
                            lemma_docs_in_dir_bound(old_docs, d@);
                        }
                        self.allowed_dirs.set(i, (d, c + 1));
                        proof {
                            assert(self.dir_pairs() =~= old_dirs.update(i as int, (d@, (c + 1) as nat)));
                            lemma_keyed_map_update(old_dirs, i as int, (c + 1) as nat);
                            assert(keyed_map(old_dirs)[d@] == c);
                        }
                    },
                    None => {
                        proof {
                            assert(!keyed_map(old_dirs).contains_key(d@)) by {
                                if keyed_map(old_dirs).contains_key(d@) {
                                    let j = choose|j: int| 0 <= j < old_dirs.len() && old_dirs[j].0 == d@;
                                    assert(self.allowed_dirs@[j].0@ == d@);
                                }
                            }
                        }
                        self.allowed_dirs.push((d, 1));
                        proof {
                            assert(self.dir_pairs() =~= old_dirs.push((d@, 1nat)));
                            lemma_keyed_map_push(old_dirs, d@, 1nat);
                        }
                    },
                }
            },
            None => {
                assert(self.dir_pairs() =~= old_dirs);
            },
        }
        proof {
            let nd = self.doc_pairs();
            let ndirs = self.dir_pairs();
            assert(nd.drop_last() =~= old_docs);
            lemma_keyed_map(ndirs);
            assert forall|i: int| 0 <= i < ndirs.len() implies #[trigger] ndirs[i].1 == docs_in_dir(
                nd,
                ndirs[i].0,
            ) && ndirs[i].1 >= 1 by {
                if i < old_dirs.len() {
                    if Some(ndirs[i].0) != dv {
                        assert(ndirs[i] == old_dirs[i]);
                    }
                }
            }
            assert forall|x: Seq<char>| docs_in_dir(nd, x) > 0 implies #[trigger] keyed_map(
                ndirs,
            ).contains_key(x) by {
                if docs_in_dir(old_docs, x) > 0 {
                    assert(keyed_map(old_dirs).contains_key(x));
                }
            }
            assert(self.docs_view().dirs =~= registered(
                DocsView { docs: keyed_map(old_docs), dirs: keyed_map(old_dirs) },
                key@,
                dv,
            ).dirs);
        }
        true
    }

    /// Forgets the document `key`; its folder counts one less and is no longer allowed
    /// when no open document is left in it. Returns whether the document was open.
    pub fn unregister_key(&mut self, key: &str) -> (removed: bool)
        requires
            old(self).wf(),
        ensures
            final(self).wf(),
            removed == old(self).docs_view().docs.contains_key(key@),
            final(self).docs_view() == unregistered(old(self).docs_view(), key@),
            final(self).separator() == old(self).separator(),
            final(self).pending_files() == old(self).pending_files(),
            final(self).ready() == old(self).ready(),
    {
        proof {
            lemma_keyed_map(self.doc_pairs());
            lemma_keyed_map(self.dir_pairs());
        }
        let ghost old_docs = self.doc_pairs();
        let ghost old_dirs = self.dir_pairs();
        let i = match find_key(&self.docs, key) {
            Some(i) => i,
            None => {
                assert(!keyed_map(old_docs).contains_key(key@)) by {
                    if keyed_map(old_docs).contains_key(key@) {
                        let j = choose|j: int| 0 <= j < old_docs.len() && old_docs[j].0 == key@;
                        assert(self.docs@[j].0@ == key@);
                    }
                }
                return false;
            },
        };
        proof {
            assert(old_docs[i as int].0 == key@);
            assert(keyed_map(old_docs)[key@] == old_docs[i as int].1);
        }
        let entry = self.docs.remove(i);
        proof {
            assert(self.doc_pairs() =~= old_docs.remove(i as int));
            lemma_keyed_map_remove(old_docs, i as int);
            assert forall|x: Seq<char>| #[trigger] docs_in_dir(old_docs, x) == docs_in_dir(
                self.doc_pairs(),
                x,
            ) + if old_docs[i as int].1 == Some(x) {
                1nat
            } else {
                0nat
            } by {
                lemma_docs_in_dir_remove(old_docs, i as int, x);
            }
        }
        match entry.1 {
            Some(d) => {
                proof {
                    lemma_docs_in_dir_bound(old_docs, d@);
                    assert(old_docs[i as int].1 == Some(d@));
                }
                match find_key(&self.allowed_dirs, d.as_str()) {
                    Some(j) => {
                        let c = self.allowed_dirs[j].1;
                        proof {
                            assert(old_dirs[j as int].0 == d@);
                            assert(keyed_map(old_dirs)[d@] == c);
                        }
                        let left: usize = if c >= 1 {
                            c - 1
                        } else {
                            0
                        };
                        if left == 0 {
                            self.allowed_dirs.remove(j);
                            proof {
                                assert(self.dir_pairs() =~= old_dirs.remove(j as int));
                                lemma_keyed_map_remove(old_dirs, j as int);
                            }
                        } else {
                            self.allowed_dirs.set(j, (d, left));
                            proof {
                                assert(self.dir_pairs() =~= old_dirs.update(
                                    j as int,
                                    (d@, left as nat),
                                ));
                                lemma_keyed_map_update(old_dirs, j as int, left as nat);
                            }
                        }
                    },
                    None => {
                        proof {
                            assert(keyed_map(old_dirs).contains_key(d@));
                            let k = choose|k: int| 0 <= k < old_dirs.len() && old_dirs[k].0 == d@;
                            assert(self.allowed_dirs@[k].0@ == d@);
                        }
                    },
                }
            },
            None => {
                assert(self.dir_pairs() =~= old_dirs);
            },
        }
        proof {
            let nd = self.doc_pairs();
            let ndirs = self.dir_pairs();
            lemma_keyed_map(ndirs);
            lemma_keyed_map(nd);
            assert forall|k: int| 0 <= k < ndirs.len() implies #[trigger] ndirs[k].1 == docs_in_dir(
                nd,
                ndirs[k].0,
            ) && ndirs[k].1 >= 1 by {
                let x = ndirs[k].0;
                assert(keyed_map(ndirs)[x] == ndirs[k].1);
                assert(keyed_map(ndirs).contains_key(x));
                assert(keyed_map(old_dirs).contains_key(x));
                let k0 = choose|k0: int| 0 <= k0 < old_dirs.len() && old_dirs[k0].0 == x;
                assert(old_dirs[k0].1 == docs_in_dir(old_docs, x));
                assert(docs_in_dir(old_docs, x) == docs_in_dir(nd, x) + if old_docs[i as int].1
                    == Some(x) {
                    1nat
                } else {
                    0nat
                });
            }
            assert forall|x: Seq<char>| docs_in_dir(nd, x) > 0 implies #[trigger] keyed_map(
                ndirs,
            ).contains_key(x) by {
                assert(docs_in_dir(old_docs, x) == docs_in_dir(nd, x) + if old_docs[i as int].1
                    == Some(x) {
                    1nat
                } else {
                    0nat
                });
                assert(keyed_map(old_dirs).contains_key(x));
                let k0 = choose|k0: int| 0 <= k0 < old_dirs.len() && old_dirs[k0].0 == x;
                assert(old_dirs[k0].1 == docs_in_dir(old_docs, x));
            }
            assert(self.docs_view().dirs =~= unregistered(
                DocsView { docs: keyed_map(old_docs), dirs: keyed_map(old_dirs) },
                key@,
            ).dirs);
        }
        true
    }

    /// Whether `key` lies inside one of the allowed folders.
    pub fn is_allowed_key(&self, key: &str) -> (r: bool)
        requires
            self.wf(),
        ensures
            r == allowed_in(self.docs_view(), key@, self.separator()),
    {
        proof {
            lemma_keyed_map(self.dir_pairs());
        }
        let k = crate::text::chars_of(key);
        let mut j: usize = 0;
        while j < self.allowed_dirs.len()
            invariant
                j <= self.allowed_dirs@.len(),
                self.wf(),
                k@ == key@,
                forall|q: int|
                    0 <= q < j ==> !under(key@, #[trigger] self.dir_pairs()[q].0, self.sep),
            decreases self.allowed_dirs@.len() - j,
        {
            let d = crate::text::chars_of(self.allowed_dirs[j].0.as_str());
            assert(d@ == self.dir_pairs()[j as int].0);
            if is_under(&k, &d, self.sep) {
                proof {
                    lemma_keyed_map(self.dir_pairs());
                    let x = self.dir_pairs()[j as int].0;
                    assert(x == d@);
                    assert(keyed_map(self.dir_pairs()).contains_key(x));
                    assert(under(key@, x, self.sep));
                    assert(self.docs_view().dirs.contains_key(x));
                    assert(allowed_in(self.docs_view(), key@, self.separator()));
                }
                return true;
            }
            j = j + 1;
        }
        proof {
            lemma_keyed_map(self.dir_pairs());
            assert forall|x: Seq<char>| #[trigger] keyed_map(self.dir_pairs()).contains_key(x)
                implies !under(key@, x, self.sep) by {
                let q = choose|q: int| 0 <= q < self.dir_pairs().len() && self.dir_pairs()[q].0 == x;
            }
        }
        false
    }

    /// Registers a document: its key, and the key of its folder, which becomes allowed.
    /// Returns whether it was newly registered (opening a document twice is harmless).
    pub fn register(&mut self, path: &str) -> (added: bool)
        requires
            old(self).wf(),
        ensures
            final(self).wf(),
            added == !old(self).docs_view().docs.contains_key(key_of(path@, old(self).separator())),
            exists|dir: Option<Seq<char>>|
                final(self).docs_view() == registered(
                    old(self).docs_view(),
                    key_of(path@, old(self).separator()),
                    dir,
                ),
            slash_path(path@) ==> final(self).docs_view() == registered(
                old(self).docs_view(),
                key_of(path@, old(self).separator()),
                folder_key(path@, old(self).separator()),
            ),
            final(self).separator() == old(self).separator(),
            final(self).pending_files() == old(self).pending_files(),
            final(self).ready() == old(self).ready(),
    {
        let key = path_key_with(path, self.sep);
        let dir = match path_parent(path) {
            Some(p) => Some(dir_key_with(p.as_str(), self.sep)),
            None => None,
        };
        proof {
            if slash_path(path@) {
                assert(opt_view(dir) == folder_key(path@, self.sep));
            }
        }
        self.register_key(key, dir)
    }

    /// Unregisters a document; its folder stays allowed only while another open document
    /// lies in it. Returns whether the document was registered.
    pub fn unregister(&mut self, path: &str) -> (removed: bool)
        requires
            old(self).wf(),
        ensures
            final(self).wf(),
            removed == old(self).docs_view().docs.contains_key(key_of(path@, old(self).separator())),
            final(self).docs_view() == unregistered(
                old(self).docs_view(),
                key_of(path@, old(self).separator()),
            ),
            final(self).separator() == old(self).separator(),
            final(self).pending_files() == old(self).pending_files(),
            final(self).ready() == old(self).ready(),
    {
        let key = path_key_with(path, self.sep);
        self.unregister_key(key.as_str())
    }

    /// Only files inside the folder of an open document (subfolders included) may be
    /// served.
    pub fn is_allowed(&self, path: &str) -> (r: bool)
        requires
            self.wf(),
        ensures
            r == allowed_in(self.docs_view(), key_of(path@, self.separator()), self.separator()),
    {
        let key = path_key_with(path, self.sep);
        self.is_allowed_key(key.as_str())
    }

    /// The allowed folders with the number of open documents in each.
    pub fn allowed_dir_counts(&self) -> (r: Vec<(String, usize)>)
        ensures
            r@.map_values(|p: (String, usize)| (p.0@, p.1 as nat)) == self.dir_pairs(),
    {
        let mut r: Vec<(String, usize)> = Vec::new();
        let mut i: usize = 0;
        while i < self.allowed_dirs.len()
            invariant
                i <= self.allowed_dirs@.len(),
                r@.map_values(|p: (String, usize)| (p.0@, p.1 as nat)) == self.dir_pairs().subrange(
                    0,
                    i as int,
                ),
            decreases self.allowed_dirs@.len() - i,
        {
            let ghost before = r@.map_values(|p: (String, usize)| (p.0@, p.1 as nat));
            let key = self.allowed_dirs[i].0.clone();
            let count = self.allowed_dirs[i].1;
            let ghost kv = key@;
            r.push((key, count));
            assert(self.dir_pairs()[i as int] == (kv, count as nat));
            assert(r@.map_values(|p: (String, usize)| (p.0@, p.1 as nat)) =~= before.push((kv, count as nat)));
            assert(r@.map_values(|p: (String, usize)| (p.0@, p.1 as nat)) =~= self.dir_pairs().subrange(
                0,
                i + 1,
            ));
            i = i + 1;
        }
        assert(self.dir_pairs().subrange(0, self.allowed_dirs@.len() as int) =~= self.dir_pairs());
        r
    }

    /// Hands the start-up files to the front end, once: afterwards the list is empty and
    /// files are delivered as events.
    pub fn take_startup_files(&mut self) -> (files: Vec<String>)
        ensures
            (final(self).handover(), files@) == take_step(old(self).handover()),
            final(self).docs_view() == old(self).docs_view(),
            final(self).separator() == old(self).separator(),
            old(self).wf() ==> final(self).wf(),
    {
        self.frontend_ready = true;
        let mut files: Vec<String> = Vec::new();
        std::mem::swap(&mut files, &mut self.startup_files);
        files
    }

    /// Routes files to open: nothing for an empty list; to the front end when it is
    /// ready (returned, to be sent as an event); else kept with the start-up files.
    pub fn deliver_files(&mut self, files: Vec<String>) -> (send: Option<Vec<String>>)
        ensures
            (final(self).handover(), match send {
                Some(v) => Some(v@),
                None => None,
            }) == deliver_step(old(self).handover(), files@),
            final(self).docs_view() == old(self).docs_view(),
            final(self).separator() == old(self).separator(),
            old(self).wf() ==> final(self).wf(),
    {
        if files.len() == 0 {
            return None;
        }
        if self.frontend_ready {
            return Some(files);
        }
        let mut files = files;
        let mut pending: Vec<String> = Vec::new();
        std::mem::swap(&mut pending, &mut self.startup_files);
        pending.append(&mut files);
        self.startup_files = pending;
        None
    }
}

/// Opening a document written with `/` makes every file below its parent folder
/// servable: after registering it, any key under the folder key of its parent is
/// allowed.
pub proof fn lemma_open_document_allows_its_folder(v: DocsView, path: Seq<char>, sep: char, file_key: Seq<char>)
    requires
        slash_path(path),
        !v.docs.contains_key(key_of(path, sep)),
        folder_key(path, sep) is Some,
        under(file_key, folder_key(path, sep).unwrap(), sep),
    ensures
        allowed_in(registered(v, key_of(path, sep), folder_key(path, sep)), file_key, sep),
{
    let d = folder_key(path, sep).unwrap();
    assert(registered(v, key_of(path, sep), folder_key(path, sep)).dirs.contains_key(d));
}

/// Every allowed folder counts at least one document.
pub open spec fn counts_positive(v: DocsView) -> bool {
    forall|d: Seq<char>| #[trigger] v.dirs.contains_key(d) ==> v.dirs[d] >= 1
}

/// The open documents whose folder key is `d`.
pub open spec fn docs_of(v: DocsView, d: Seq<char>) -> Set<Seq<char>> {
    v.docs.dom().filter(|k: Seq<char>| v.docs[k] == Some(d))
}

/// With distinct keys, the documents of a list in folder `d` are as many as the keys
/// of its map whose folder is `d`.
proof fn lemma_docs_in_dir_count(s: Seq<(Seq<char>, Option<Seq<char>>)>, d: Seq<char>)
    requires
        distinct_keys(s),
    ensures
        keyed_map(s).dom().filter(|k: Seq<char>| keyed_map(s)[k] == Some(d)).finite(),
        keyed_map(s).dom().filter(|k: Seq<char>| keyed_map(s)[k] == Some(d)).len() == docs_in_dir(s, d),
    decreases s.len(),
{
    let f = keyed_map(s).dom().filter(|k: Seq<char>| keyed_map(s)[k] == Some(d));
    lemma_keyed_map(s);
    if s.len() == 0 {
        assert(f =~= Set::empty());
    } else {
        let p = s.drop_last();
        assert(distinct_keys(p)) by {
            assert forall|i: int, j: int|
                #![trigger p[i].0, p[j].0]
                0 <= i < p.len() && 0 <= j < p.len() && i != j implies p[i].0 != p[j].0 by {
                assert(p[i] == s[i] && p[j] == s[j]);
            }
        }
        lemma_docs_in_dir_count(p, d);
        lemma_keyed_map(p);
        let fp = keyed_map(p).dom().filter(|k: Seq<char>| keyed_map(p)[k] == Some(d));
        let last = s.last();
        assert(!keyed_map(p).contains_key(last.0)) by {
            if keyed_map(p).contains_key(last.0) {
                let i = choose|i: int| 0 <= i < p.len() && p[i].0 == last.0;
                assert(s[i].0 == s[s.len() - 1].0);
            }
        }
        assert(keyed_map(s) == keyed_map(p).insert(last.0, last.1));
        if last.1 == Some(d) {
            assert(f =~= fp.insert(last.0));
        } else {
            assert(f =~= fp);
        }
    }
}

/// In a well-formed state each allowed folder counts exactly the open documents whose
/// folder it is.
pub proof fn lemma_folder_counts(s: AppState)
    requires
        s.wf(),
    ensures
        forall|d: Seq<char>|
            #[trigger] s.docs_view().dirs.contains_key(d) ==> docs_of(s.docs_view(), d).finite()
                && s.docs_view().dirs[d] == docs_of(s.docs_view(), d).len(),
{
    let docs = s.doc_pairs();
    let dirs = s.dir_pairs();
    lemma_keyed_map(dirs);
    assert forall|d: Seq<char>| #[trigger] s.docs_view().dirs.contains_key(d) implies docs_of(s.docs_view(), d).finite()
        && s.docs_view().dirs[d] == docs_of(s.docs_view(), d).len() by {
        let i = choose|i: int| 0 <= i < dirs.len() && dirs[i].0 == d;
        assert(dirs[i].1 == docs_in_dir(docs, d));
        lemma_docs_in_dir_count(docs, d);
        assert(docs_of(s.docs_view(), d) == keyed_map(docs).dom().filter(|k: Seq<char>| keyed_map(docs)[k] == Some(d)));
    }
}

/// A well-formed state counts at least one document for each allowed folder, and a
/// folder is allowed exactly when an open document lies in it.
pub proof fn lemma_wf_view(s: AppState)
    requires
        s.wf(),
    ensures
        counts_positive(s.docs_view()),
        forall|d: Seq<char>|
            #[trigger] s.docs_view().dirs.contains_key(d) <==> exists|k: Seq<char>|
                s.docs_view().docs.contains_key(k) && s.docs_view().docs[k] == Some(d),
{
    let docs = s.doc_pairs();
    let dirs = s.dir_pairs();
    lemma_keyed_map(docs);
    lemma_keyed_map(dirs);
    assert forall|d: Seq<char>| #[trigger] keyed_map(dirs).contains_key(d) implies keyed_map(dirs)[d]
        >= 1 by {
        let i = choose|i: int| 0 <= i < dirs.len() && dirs[i].0 == d;
        assert(dirs[i].1 >= 1);
    }
    assert forall|d: Seq<char>|
        #[trigger] keyed_map(dirs).contains_key(d) <==> exists|k: Seq<char>|
            keyed_map(docs).contains_key(k) && keyed_map(docs)[k] == Some(d) by {
        lemma_docs_in_dir_bound(docs, d);
        if keyed_map(dirs).contains_key(d) {
            let i = choose|i: int| 0 <= i < dirs.len() && dirs[i].0 == d;
            assert(dirs[i].1 == docs_in_dir(docs, d));
            let j = choose|j: int| 0 <= j < docs.len() && docs[j].1 == Some(d);
            assert(keyed_map(docs).contains_key(docs[j].0));
            assert(keyed_map(docs)[docs[j].0] == docs[j].1);
        }
        if exists|k: Seq<char>| keyed_map(docs).contains_key(k) && keyed_map(docs)[k] == Some(d) {
            let k = choose|k: Seq<char>| keyed_map(docs).contains_key(k) && keyed_map(docs)[k] == Some(d);
            let j = choose|j: int| 0 <= j < docs.len() && docs[j].0 == k;
            assert(docs[j].1 == Some(d));
        }
    }
}

/// Opening a document that is already open changes nothing, whatever its folder.
pub proof fn lemma_register_idempotent(
    v: DocsView,
    key: Seq<char>,
    dir: Option<Seq<char>>,
    dir2: Option<Seq<char>>,
)
    ensures
        registered(registered(v, key, dir), key, dir2) == registered(v, key, dir),
{
}

/// Closing a document right after opening it (when it was not open) restores the state.
pub proof fn lemma_unregister_undoes_register(v: DocsView, key: Seq<char>, dir: Option<Seq<char>>)
    requires
        counts_positive(v),
        !v.docs.contains_key(key),
    ensures
        unregistered(registered(v, key, dir), key) == v,
{
    let r = registered(v, key, dir);
    let u = unregistered(r, key);
    assert(u.docs =~= v.docs);
    match dir {
        Some(d) => {
            if v.dirs.contains_key(d) {
                assert(u.dirs =~= v.dirs);
            } else {
                assert(u.dirs =~= v.dirs);
            }
        },
        None => {
            assert(u.dirs =~= v.dirs);
        },
    }
}

/// A path may be served exactly when it lies inside the folder of an open document.
pub proof fn lemma_allowed_iff_open_document(s: AppState, key: Seq<char>)
    requires
        s.wf(),
    ensures
        allowed_in(s.docs_view(), key, s.separator()) <==> exists|k: Seq<char>, d: Seq<char>|
            #![trigger s.docs_view().docs.contains_key(k), under(key, d, s.separator())]
            s.docs_view().docs.contains_key(k) && s.docs_view().docs[k] == Some(d) && under(
                key,
                d,
                s.separator(),
            ),
{
    lemma_wf_view(s);
    let v = s.docs_view();
    if allowed_in(v, key, s.separator()) {
        let d = choose|d: Seq<char>| #[trigger] v.dirs.contains_key(d) && under(key, d, s.separator());
        let k = choose|k: Seq<char>| v.docs.contains_key(k) && v.docs[k] == Some(d);
        assert(v.docs.contains_key(k) && v.docs[k] == Some(d) && under(key, d, s.separator()));
    }
    if exists|k: Seq<char>, d: Seq<char>|
        #![trigger v.docs.contains_key(k), under(key, d, s.separator())]
        v.docs.contains_key(k) && v.docs[k] == Some(d) && under(key, d, s.separator()) {
        let (k, d) = choose|k: Seq<char>, d: Seq<char>|
            #![trigger v.docs.contains_key(k), under(key, d, s.separator())]
            v.docs.contains_key(k) && v.docs[k] == Some(d) && under(key, d, s.separator());
        assert(v.dirs.contains_key(d));
    }
}

/// `key` has the characters of `dir`, then `sep`, then at least one more.
fn is_under(key: &Vec<char>, dir: &Vec<char>, sep: char) -> (r: bool)
    ensures
        r == under(key@, dir@, sep),
{
    if key.len() <= dir.len() {
        return false;
    }
    let mut i: usize = 0;
    while i < dir.len()
        invariant
            i <= dir@.len() < key@.len(),
            forall|q: int| 0 <= q < i ==> key@[q] == dir@[q],
        decreases dir@.len() - i,
    {
        if key[i] != dir[i] {
            assert(key@.subrange(0, dir@.len() as int)[i as int] != dir@[i as int]);
            return false;
        }
        i = i + 1;
    }
    assert(key@.subrange(0, dir@.len() as int) =~= dir@);
    key[dir.len()] == sep
}

} // verus!
