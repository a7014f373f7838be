//! Bookkeeping for file watching: which folders are watched for which documents, which
//! changes concern an open document, and the debounce of change notices.

use vstd::prelude::*;
use vstd::string::StringExecFns;

use crate::paths::{parent_slice, path_parent, slash_path};
use crate::state::{dir_key_of, dir_key_with, folder_key, key_of, path_key_with};
use crate::keyed::{
    distinct_keys, find_key, keyed_map, lemma_keyed_map, lemma_keyed_map_push, lemma_keyed_map_remove,
    lemma_keyed_map_update,
};

verus! {

// ---------------------------------------------------------------- debounce

/// Milliseconds a change notice waits for quiet before it is passed on.
pub const DEBOUNCE_MS: u64 = 300;

/// Milliseconds to wait for a notice when nothing is pending.
pub const IDLE_WAIT_MS: u64 = 3_600_000;

/// Milliseconds to wait for a notice while something is pending.
pub const BUSY_WAIT_MS: u64 = 50;

/// A notice recorded at `at` is ready at `now` once `DEBOUNCE_MS` have passed
/// (a clock that went back counts as no time passed).
pub open spec fn is_ready(at: u64, now: u64) -> bool {
    now >= at && now - at >= DEBOUNCE_MS
}

/// The pending notices that are not ready at `now`.
pub open spec fn still_pending(m: Map<Seq<char>, u64>, now: u64) -> Map<Seq<char>, u64> {
    Map::new(|k: Seq<char>| m.contains_key(k) && !is_ready(m[k], now), |k: Seq<char>| m[k])
}

/// The paths in `ready` are exactly the keys of `m` whose notice is ready at `now`.
pub open spec fn ready_match(ready: Seq<String>, m: Map<Seq<char>, u64>, now: u64) -> bool {
    forall|k: Seq<char>|
        (exists|q: int| 0 <= q < ready.len() && #[trigger] ready[q]@ == k) <==> (m.contains_key(k)
            && is_ready(m[k], now))
}

proof fn lemma_ready_keep(rs: Seq<String>, m: Map<Seq<char>, u64>, k: Seq<char>, at: u64, now: u64)
    requires
        ready_match(rs, m, now),
        !m.contains_key(k),
        !is_ready(at, now),
    ensures
        ready_match(rs, m.insert(k, at), now),
{
    let m2 = m.insert(k, at);
    assert forall|x: Seq<char>|
        (exists|q: int| 0 <= q < rs.len() && #[trigger] rs[q]@ == x) <==> (m2.contains_key(x)
            && is_ready(m2[x], now)) by {
        if x == k {
            if exists|q: int| 0 <= q < rs.len() && #[trigger] rs[q]@ == x {
                assert(m.contains_key(x));
            }
        } else {
            assert(m2.contains_key(x) == m.contains_key(x));
        }
    }
}

proof fn lemma_ready_push(rs: Seq<String>, m: Map<Seq<char>, u64>, s: String, at: u64, now: u64)
    requires
        ready_match(rs, m, now),
        !m.contains_key(s@),
        is_ready(at, now),
    ensures
        ready_match(rs.push(s), m.insert(s@, at), now),
{
    let m2 = m.insert(s@, at);
    let r2 = rs.push(s);
    assert forall|x: Seq<char>|
        (exists|q: int| 0 <= q < r2.len() && #[trigger] r2[q]@ == x) <==> (m2.contains_key(x)
            && is_ready(m2[x], now)) by {
        if exists|q: int| 0 <= q < r2.len() && #[trigger] r2[q]@ == x {
            let q = choose|q: int| 0 <= q < r2.len() && #[trigger] r2[q]@ == x;
            if q < rs.len() {
                assert(rs[q] == r2[q]);
            }
        }
        if m2.contains_key(x) && is_ready(m2[x], now) {
            if x != s@ {
                assert(m.contains_key(x));
                let q = choose|q: int| 0 <= q < rs.len() && #[trigger] rs[q]@ == x;
                assert(r2[q] == rs[q]);
            } else {
                assert(r2[rs.len() as int]@ == x);
            }
        }
    }
}

/// Change notices waiting for quiet: for each document path, the time (in milliseconds)
/// of its latest notice.
pub struct Debouncer {
    pending: Vec<(String, u64)>,
}

impl Debouncer {
    /// The pending notices as pairs.
    pub closed spec fn pairs(&self) -> Seq<(Seq<char>, u64)> {
        self.pending@.map_values(|p: (String, u64)| (p.0@, p.1))
    }

    /// The pending notices: path to time of the latest notice.
    pub open spec fn pending_view(&self) -> Map<Seq<char>, u64> {
        keyed_map(self.pairs())
    }

    /// No path is pending twice.
    pub closed spec fn wf(&self) -> bool {
        distinct_keys(self.pairs())
    }

    /// Nothing pending.
    pub fn new() -> (d: Debouncer)
        ensures
            d.wf(),
            d.pending_view() == Map::<Seq<char>, u64>::empty(),
    {
        let d = Debouncer { pending: Vec::new() };
        assert(d.pairs() =~= Seq::empty());
        d
    }

    /// Records a change notice for `path` at `now`; a later notice for the same path
    /// restarts its wait.
    pub fn record(&mut self, path: String, now: u64)
        requires
            old(self).wf(),
        ensures
            final(self).wf(),
            final(self).pending_view() == old(self).pending_view().insert(path@, now),
    {
        let ghost old_pairs = self.pairs();
        proof {
            lemma_keyed_map(old_pairs);
        }
        match find_key(&self.pending, path.as_str()) {
            Some(i) => {
                let ghost k = path@;
                self.pending.set(i, (path, now));
                proof {
                    assert(self.pairs() =~= old_pairs.update(i as int, (old_pairs[i as int].0, now)));
                    lemma_keyed_map_update(old_pairs, i as int, now);
                }
            },
            None => {
                let ghost k = path@;
                proof {
                    assert(!keyed_map(old_pairs).contains_key(k)) by {
                        if keyed_map(old_pairs).contains_key(k) {
                            let j = choose|j: int| 0 <= j < old_pairs.len() && old_pairs[j].0 == k;
                            assert(self.pending@[j].0@ == k);
                        }
                    }
                }
                self.pending.push((path, now));
                proof {
                    assert(self.pairs() =~= old_pairs.push((k, now)));
                    lemma_keyed_map_push(old_pairs, k, now);
                }
            },
        }
    }

    /// How long to wait for the next notice: long when nothing is pending, briefly
    /// otherwise.
    pub fn wait_ms(&self) -> (ms: u64)
        requires
            self.wf(),
        ensures
            self.pending_view().dom().len() == 0 ==> ms == IDLE_WAIT_MS,
            self.pending_view().dom().len() > 0 ==> ms == BUSY_WAIT_MS,
    {
        proof {
            lemma_keyed_map(self.pairs());
        }
        if self.pending.len() == 0 {
            IDLE_WAIT_MS
        } else {
            BUSY_WAIT_MS
        }
    }

    /// Takes out the notices that are ready at `now` and returns their paths; the
    /// others stay pending.
    pub fn take_ready(&mut self, now: u64) -> (ready: Vec<String>)
        requires
            old(self).wf(),
        ensures
            final(self).wf(),
            final(self).pending_view() == still_pending(old(self).pending_view(), now),
            ready_match(ready@, old(self).pending_view(), now),
    {
        let ghost old_pairs = self.pairs();
        proof {
            lemma_keyed_map(old_pairs);
        }
        let mut kept: Vec<(String, u64)> = Vec::new();
        let mut ready: Vec<String> = Vec::new();
        let n = self.pending.len();
        let mut i: usize = 0;
        while i < n
            invariant
                n == self.pending@.len() == old_pairs.len(),
                self.pairs() == old_pairs,
                distinct_keys(old_pairs),
                i <= n,
                distinct_keys(kept@.map_values(|p: (String, u64)| (p.0@, p.1))),
                keyed_map(kept@.map_values(|p: (String, u64)| (p.0@, p.1))) == still_pending(
                    keyed_map(old_pairs.subrange(0, i as int)),
                    now,
                ),
                ready_match(ready@, keyed_map(old_pairs.subrange(0, i as int)), now),
            decreases n - i,
        {
            let ghost prefix = old_pairs.subrange(0, i as int);
            let ghost next = old_pairs.subrange(0, i + 1);
            let ghost kv = kept@.map_values(|p: (String, u64)| (p.0@, p.1));
            let ghost ready_before = ready@;
            proof {
                assert(next.drop_last() =~= prefix);
                assert(next.last() == old_pairs[i as int]);
                assert(old_pairs[i as int] == (self.pending@[i as int].0@, self.pending@[i as int].1));
                assert(!keyed_map(prefix).contains_key(old_pairs[i as int].0)) by {
                    assert(distinct_keys(prefix)) by {
                        assert forall|a: int, b: int|
                            #![trigger prefix[a].0, prefix[b].0]
                            0 <= a < prefix.len() && 0 <= b < prefix.len() && a != b implies prefix[a].0
                            != prefix[b].0 by {
                            assert(prefix[a] == old_pairs[a] && prefix[b] == old_pairs[b]);
                        }
                    }
                    lemma_keyed_map(prefix);
                    if keyed_map(prefix).contains_key(old_pairs[i as int].0) {
                        let j = choose|j: int| 0 <= j < prefix.len() && prefix[j].0 == old_pairs[i as int].0;
                        assert(prefix[j] == old_pairs[j]);
                    }
                }
            }
            let at = self.pending[i].1;
            let path = self.pending[i].0.clone();
            let ghost k = path@;
            if now >= at && now - at >= DEBOUNCE_MS {
                let ghost sp = path;
                ready.push(path);
                proof {
                    assert(keyed_map(kv) =~= still_pending(keyed_map(next), now));
                    assert(keyed_map(next) == keyed_map(prefix).insert(k, at));
                    lemma_ready_push(ready_before, keyed_map(prefix), sp, at, now);
                    assert(ready@ == ready_before.push(sp));
                }
            } else {
                proof {
                    assert(!keyed_map(kv).contains_key(k)) by {
                        lemma_keyed_map(kv);
                    }
                }
                kept.push((path, at));
                proof {
                    let kv2 = kept@.map_values(|p: (String, u64)| (p.0@, p.1));
                    assert(kv2 =~= kv.push((k, at)));
                    lemma_keyed_map_push(kv, k, at);
                    assert(keyed_map(kv2) =~= still_pending(keyed_map(next), now));
                    assert(keyed_map(next) == keyed_map(prefix).insert(k, at));
                    lemma_ready_keep(ready@, keyed_map(prefix), k, at, now);
                }
            }
            i = i + 1;
        }
        proof {
            assert(old_pairs.subrange(0, n as int) =~= old_pairs);
        }
        self.pending = kept;
        ready
    }
}

// ---------------------------------------------------------------- watched folders

/// The documents being watched (key to the path the front end knows) and the folders
/// being watched (folder key to its path and the number of documents watched in it).
pub struct WatchView {
    pub files: Map<Seq<char>, Seq<char>>,
    pub dirs: Map<Seq<char>, (Seq<char>, nat)>,
}

/// State and action after asking to watch the document `file` (key `key`) whose folder
/// is `dir` (key and path). Without a folder nothing happens. Otherwise the document is
/// recorded; a folder already watched counts one more; a folder not watched yet must
/// be started (its path is returned) and counts only once that has succeeded.
pub open spec fn watch_step(
    v: WatchView,
    key: Seq<char>,
    file: Seq<char>,
    dir: Option<(Seq<char>, Seq<char>)>,
) -> (WatchView, Option<Seq<char>>) {
    match dir {
        None => (v, None),
        Some((dk, dp)) => {
            let files = v.files.insert(key, file);
            if v.dirs.contains_key(dk) && v.dirs[dk].1 > 0 {
                (
                    WatchView {
                        files,
                        dirs: v.dirs.insert(dk, (v.dirs[dk].0, v.dirs[dk].1 + 1)),
                    },
                    None,
                )
            } else if v.dirs.contains_key(dk) {
                (WatchView { files, dirs: v.dirs }, Some(v.dirs[dk].0))
            } else {
                (WatchView { files, dirs: v.dirs.insert(dk, (dp, 0)) }, Some(dp))
            }
        },
    }
}

/// State after the folder `dk` has started to be watched: it counts one more.
pub open spec fn started_step(v: WatchView, dk: Seq<char>) -> WatchView {
    if v.dirs.contains_key(dk) {
        WatchView { files: v.files, dirs: v.dirs.insert(dk, (v.dirs[dk].0, v.dirs[dk].1 + 1)) }
    } else {
        v
    }
}

/// State and action after asking to stop watching the document `key` whose folder key
/// is `dir`: the document is forgotten; its folder counts one less, and at zero it is
/// dropped and must be stopped (its path is returned).
pub open spec fn unwatch_step(v: WatchView, key: Seq<char>, dir: Option<Seq<char>>) -> (
    WatchView,
    Option<Seq<char>>,
) {
    let files = v.files.remove(key);
    match dir {
        Some(dk) => if v.dirs.contains_key(dk) {
            if v.dirs[dk].1 <= 1 {
                (WatchView { files, dirs: v.dirs.remove(dk) }, Some(v.dirs[dk].0))
            } else {
                (
                    WatchView {
                        files,
                        dirs: v.dirs.insert(dk, (v.dirs[dk].0, (v.dirs[dk].1 - 1) as nat)),
                    },
                    None,
                )
            }
        } else {
            (WatchView { files, dirs: v.dirs }, None)
        },
        None => (WatchView { files, dirs: v.dirs }, None),
    }
}

/// Watching a document of a folder that is not watched yet, the folder being started,
/// then unwatching it, restores the state (when the document was not watched before)
/// and stops the folder again.
pub proof fn lemma_watch_unwatch(v: WatchView, key: Seq<char>, file: Seq<char>, dk: Seq<char>, dp: Seq<char>)
    requires
        !v.files.contains_key(key),
        !v.dirs.contains_key(dk),
    ensures
        watch_step(v, key, file, Some((dk, dp))).1 == Some(dp),
        unwatch_step(started_step(watch_step(v, key, file, Some((dk, dp))).0, dk), key, Some(dk)).1
            == Some(dp),
        unwatch_step(started_step(watch_step(v, key, file, Some((dk, dp))).0, dk), key, Some(dk)).0
            == v,
{
    let w = watch_step(v, key, file, Some((dk, dp))).0;
    let s = started_step(w, dk);
    let u = unwatch_step(s, key, Some(dk)).0;
    assert(u.files =~= v.files);
    assert(u.dirs =~= v.dirs);
}


/// The folder of a `/`-separated document (its `Path::parent`), as its key for
/// separator `sep` and its path.
pub open spec fn watch_folder(file: Seq<char>, sep: char) -> Option<(Seq<char>, Seq<char>)> {
    match parent_slice(file) {
        Some(p) => Some((dir_key_of(p, sep), p)),
        None => None,
    }
}

/// A folder that must start being watched: its key and its path.
pub struct WatchStart {
    pub dir_key: String,
    pub dir: String,
}

/// Which documents are watched, and which of their folders, with how many documents
/// each.
pub struct WatchRegistry {
    files: Vec<(String, String)>,
    dirs: Vec<(String, (String, usize))>,
    sep: char,
}

/// The values of the folder entries.
pub open spec fn dir_entries_view(v: Seq<(String, (String, usize))>) -> Seq<(Seq<char>, (Seq<char>, nat))> {
    v.map_values(|p: (String, (String, usize))| (p.0@, (p.1.0@, p.1.1 as nat)))
}

/// The values of the document entries.
pub open spec fn file_entries_view(v: Seq<(String, String)>) -> Seq<(Seq<char>, Seq<char>)> {
    v.map_values(|p: (String, String)| (p.0@, p.1@))
}

/// No folder counts `usize::MAX` documents yet, so one more can be counted.
pub open spec fn counts_below_max(v: WatchView) -> bool {
    forall|k: Seq<char>| #[trigger] v.dirs.contains_key(k) ==> v.dirs[k].1 < usize::MAX
}

/// The documents' paths (as the front end knows them) among `paths` whose key is
/// watched, in order.
pub open spec fn watched_documents(files: Map<Seq<char>, Seq<char>>, paths: Seq<Seq<char>>, sep: char) -> Seq<
    Seq<char>,
>
    decreases paths.len(),
{
    if paths.len() == 0 {
        Seq::empty()
    } else {
        let rest = watched_documents(files, paths.drop_last(), sep);
        let k = key_of(paths.last(), sep);
        if files.contains_key(k) {
            rest.push(files[k])
        } else {
            rest
        }
    }
}

impl WatchRegistry {
    /// Watched documents and folders.
    pub closed spec fn view_of(&self) -> WatchView {
        WatchView {
            files: keyed_map(file_entries_view(self.files@)),
            dirs: keyed_map(dir_entries_view(self.dirs@)),
        }
    }

    /// The path separator of the platform, read when the registry was made.
    pub closed spec fn separator(&self) -> char {
        self.sep
    }

    /// Keys are distinct.
    pub closed spec fn wf(&self) -> bool {
        &&& distinct_keys(file_entries_view(self.files@))
        &&& distinct_keys(dir_entries_view(self.dirs@))
    }

    /// Nothing watched.
    pub fn new() -> (r: WatchRegistry)
        ensures
            r.wf(),
            r.view_of().files == Map::<Seq<char>, Seq<char>>::empty(),
            r.view_of().dirs == Map::<Seq<char>, (Seq<char>, nat)>::empty(),
            r.separator() == '/' || r.separator() == '\\',
    {
        let r = WatchRegistry { files: Vec::new(), dirs: Vec::new(), sep: crate::paths::main_separator() };
        assert(file_entries_view(r.files@) =~= Seq::empty());
        assert(dir_entries_view(r.dirs@) =~= Seq::empty());
        r
    }

    fn set_file(&mut self, key: String, file: String)
        requires
            old(self).wf(),
        ensures
            final(self).wf(),
            final(self).view_of().files == old(self).view_of().files.insert(key@, file@),
            final(self).view_of().dirs == old(self).view_of().dirs,
            final(self).sep == old(self).sep,
    {
        let ghost fv = file_entries_view(self.files@);
        proof {
            lemma_keyed_map(fv);
        }
        match find_key(&self.files, key.as_str()) {
            Some(i) => {
                let ghost k = key@;
                self.files.set(i, (key, file));
                proof {
                    assert(file_entries_view(self.files@) =~= fv.update(i as int, (fv[i as int].0, file@)));
                    lemma_keyed_map_update(fv, i as int, file@);
                }
            },
            None => {
                let ghost k = key@;
                let ghost f = file@;
                proof {
                    assert(!keyed_map(fv).contains_key(k)) by {
                        if keyed_map(fv).contains_key(k) {
                            let j = choose|j: int| 0 <= j < fv.len() && fv[j].0 == k;
                            assert(self.files@[j].0@ == k);
                        }
                    }
                }
                self.files.push((key, file));
                proof {
                    assert(file_entries_view(self.files@) =~= fv.push((k, f)));
                    lemma_keyed_map_push(fv, k, f);
                }
            },
        }
    }

    /// Records that the document `key` (path `file`) is watched, with its folder `dir`
    /// (key and path) if it has one. Returns the folder that must start being watched,
    /// if any; after that has succeeded, [`WatchRegistry::started`] counts it.
    pub fn watch_key(&mut self, key: String, file: String, dir: Option<(String, String)>) -> (start: Option<String>)
        requires
            old(self).wf(),
            counts_below_max(old(self).view_of()),
        ensures
            final(self).wf(),
            final(self).separator() == old(self).separator(),
            (final(self).view_of(), match start {
                Some(p) => Some(p@),
                None => None,
            }) == watch_step(
                old(self).view_of(),
                key@,
                file@,
                match dir {
                    Some((dk, dp)) => Some((dk@, dp@)),
                    None => None,
                },
            ),
    {
        let (dk, dp) = match dir {
            None => return None,
            Some(d) => d,
        };
        let ghost v0 = self.view_of();
        self.set_file(key, file);
        let ghost dv = dir_entries_view(self.dirs@);
        proof {
            lemma_keyed_map(dv);
        }
        match find_key(&self.dirs, dk.as_str()) {
            Some(i) => {
                let c = self.dirs[i].1.1;
                proof {
                    assert(dv[i as int].0 == dk@);
                    assert(keyed_map(dv)[dk@] == dv[i as int].1);
                    assert(keyed_map(dv) == v0.dirs);
                    assert(v0.dirs.contains_key(dk@));
                    assert(v0.dirs[dk@].1 < usize::MAX);
                }
                if c > 0 {
                    let path = self.dirs[i].1.0.clone();
                    let ghost pv = path@;
                    self.dirs.set(i, (dk, (path, c + 1)));
                    proof {
                        assert(dir_entries_view(self.dirs@) =~= dv.update(i as int, (dv[i as int].0, (pv, (c + 1) as nat))));
                        lemma_keyed_map_update(dv, i as int, (pv, (c + 1) as nat));
                    }
                    None
                } else {
                    Some(self.dirs[i].1.0.clone())
                }
            },
            None => {
                let ghost k = dk@;
                let ghost p = dp@;
                proof {
                    assert(!keyed_map(dv).contains_key(k)) by {
                        if keyed_map(dv).contains_key(k) {
                            let j = choose|j: int| 0 <= j < dv.len() && dv[j].0 == k;
                            assert(self.dirs@[j].0@ == k);
                        }
                    }
                }
                let path = dp.clone();
                self.dirs.push((dk, (dp, 0)));
                proof {
                    assert(dir_entries_view(self.dirs@) =~= dv.push((k, (p, 0nat))));
                    lemma_keyed_map_push(dv, k, (p, 0nat));
                }
                Some(path)
            },
        }
    }

    /// Counts one more document for the folder `dir_key`, once watching it has started.
    pub fn started(&mut self, dir_key: &str)
        requires
            old(self).wf(),
            counts_below_max(old(self).view_of()),
        ensures
            final(self).wf(),
            final(self).separator() == old(self).separator(),
            final(self).view_of() == started_step(old(self).view_of(), dir_key@),
    {
        let ghost dv = dir_entries_view(self.dirs@);
        proof {
            lemma_keyed_map(dv);
        }
        match find_key(&self.dirs, dir_key) {
            Some(i) => {
                let c = self.dirs[i].1.1;
                let path = self.dirs[i].1.0.clone();
                let key = self.dirs[i].0.clone();
                let ghost pv = path@;
                proof {
                    assert(dv[i as int].0 == dir_key@);
                    assert(keyed_map(dv)[dir_key@] == dv[i as int].1);
                    assert(self.view_of().dirs.contains_key(dir_key@));
                    assert(self.view_of().dirs[dir_key@].1 < usize::MAX);
                }
                self.dirs.set(i, (key, (path, c + 1)));
                proof {
                    assert(dir_entries_view(self.dirs@) =~= dv.update(i as int, (dv[i as int].0, (pv, (c + 1) as nat))));
                    lemma_keyed_map_update(dv, i as int, (pv, (c + 1) as nat));
                }
            },
            None => {
                proof {
                    assert(!keyed_map(dv).contains_key(dir_key@)) by {
                        if keyed_map(dv).contains_key(dir_key@) {
                            let j = choose|j: int| 0 <= j < dv.len() && dv[j].0 == dir_key@;
                            assert(self.dirs@[j].0@ == dir_key@);
                        }
                    }
                }
            },
        }
    }

    /// Forgets the document `key` and counts one document less for its folder `dir`.
    /// Returns the folder that must stop being watched, if its count reached zero.
    pub fn unwatch_key(&mut self, key: &str, dir: Option<String>) -> (stop: Option<String>)
        requires
            old(self).wf(),
        ensures
            final(self).wf(),
            final(self).separator() == old(self).separator(),
            (final(self).view_of(), match stop {
                Some(p) => Some(p@),
                None => None,
            }) == unwatch_step(
                old(self).view_of(),
                key@,
                match dir {
                    Some(d) => Some(d@),
                    None => None,
                },
            ),
    {
        let ghost fv = file_entries_view(self.files@);
        proof {
            lemma_keyed_map(fv);
        }
        match find_key(&self.files, key) {
            Some(i) => {
                proof {
                    assert(fv[i as int].0 == key@);
                }
                self.files.remove(i);
                proof {
                    assert(file_entries_view(self.files@) =~= fv.remove(i as int));
                    lemma_keyed_map_remove(fv, i as int);
                }
            },
            None => {
                proof {
                    assert(!keyed_map(fv).contains_key(key@)) by {
                        if keyed_map(fv).contains_key(key@) {
                            let j = choose|j: int| 0 <= j < fv.len() && fv[j].0 == key@;
                            assert(self.files@[j].0@ == key@);
                        }
                    }
                    assert(keyed_map(fv).remove(key@) =~= keyed_map(fv));
                }
            },
        }
        let dk = match dir {
            None => return None,
            Some(d) => d,
        };
        let ghost dv = dir_entries_view(self.dirs@);
        proof {
            lemma_keyed_map(dv);
        }
        match find_key(&self.dirs, dk.as_str()) {
            Some(j) => {
                let c = self.dirs[j].1.1;
                proof {
                    assert(dv[j as int].0 == dk@);
                    assert(keyed_map(dv)[dk@] == dv[j as int].1);
                }
                let left: usize = if c >= 1 {
                    c - 1
                } else {
                    0
                };
                if left == 0 {
                    let (_, (path, _)) = self.dirs.remove(j);
                    proof {
                        assert(dir_entries_view(self.dirs@) =~= dv.remove(j as int));
                        lemma_keyed_map_remove(dv, j as int);
                    }
                    Some(path)
                } else {
                    let path = self.dirs[j].1.0.clone();
                    let ghost pv = path@;
                    self.dirs.set(j, (dk, (path, left)));
                    proof {
                        assert(dir_entries_view(self.dirs@) =~= dv.update(j as int, (dv[j as int].0, (pv, left as nat))));
                        lemma_keyed_map_update(dv, j as int, (pv, left as nat));
                    }
                    None
                }
            },
            None => {
                proof {
                    assert(!keyed_map(dv).contains_key(dk@)) by {
                        if keyed_map(dv).contains_key(dk@) {
                            let k = choose|k: int| 0 <= k < dv.len() && dv[k].0 == dk@;
                            assert(self.dirs@[k].0@ == dk@);
                        }
                    }
                }
                None
            },
        }
    }

    /// Starts watching a document: records it under its key and asks to watch its folder
    /// (non-recursively) when that folder is not watched yet.
    pub fn watch(&mut self, file: &str) -> (start: Option<WatchStart>)
        requires
            old(self).wf(),
            counts_below_max(old(self).view_of()),
        ensures
            final(self).wf(),
            final(self).separator() == old(self).separator(),
            exists|dir: Option<(Seq<char>, Seq<char>)>|
                #![trigger watch_step(old(self).view_of(), key_of(file@, old(self).separator()), file@, dir)]
                {
                    &&& (final(self).view_of(), match start {
                        Some(w) => Some(w.dir@),
                        None => None,
                    }) == watch_step(old(self).view_of(), key_of(file@, old(self).separator()), file@, dir)
                    &&& match start {
                        Some(w) => dir is Some && w.dir_key@ == dir.unwrap().0,
                        None => true,
                    }
                },
            slash_path(file@) ==> (final(self).view_of(), match start {
                Some(w) => Some(w.dir@),
                None => None,
            }) == watch_step(
                old(self).view_of(),
                key_of(file@, old(self).separator()),
                file@,
                watch_folder(file@, old(self).separator()),
            ),
            slash_path(file@) ==> (start matches Some(w) ==> Some(w.dir_key@) == folder_key(
                file@,
                old(self).separator(),
            )),
    {
        let ghost v0 = self.view_of();
        let ghost k0 = key_of(file@, self.sep);
        let dir = match path_parent(file) {
            Some(d) => d,
            None => {
                let ghost nd: Option<(Seq<char>, Seq<char>)> = None;
                proof {
                    if slash_path(file@) {
                        assert(nd == watch_folder(file@, self.sep));
                    }
                }
                assert(watch_step(old(self).view_of(), key_of(file@, old(self).separator()), file@, nd)
                    == (self.view_of(), None::<Seq<char>>));
                assert(match None::<WatchStart> {
                    Some(w) => nd is Some && w.dir_key@ == nd.unwrap().0,
                    None => true,
                });
                return None;
            },
        };
        let key = path_key_with(file, self.sep);
        let dk = dir_key_with(dir.as_str(), self.sep);
        let dk_copy = dk.clone();
        let ghost d = Some((dk@, dir@));
        proof {
            if slash_path(file@) {
                assert(d == watch_folder(file@, self.sep));
            }
        }
        let owned = String::from_str(file);
        let r = self.watch_key(key, owned, Some((dk, dir)));
        assert((self.view_of(), match r {
            Some(p) => Some(p@),
            None => None,
        }) == watch_step(v0, k0, file@, d));
        match r {
            Some(p) => Some(WatchStart { dir_key: dk_copy, dir: p }),
            None => None,
        }
    }

    /// Stops watching a document; returns its folder when no watched document is left
    /// in it, so that watching the folder stops.
    pub fn unwatch(&mut self, file: &str) -> (stop: Option<String>)
        requires
            old(self).wf(),
        ensures
            final(self).wf(),
            final(self).separator() == old(self).separator(),
            exists|dir: Option<Seq<char>>|
                #![trigger unwatch_step(old(self).view_of(), key_of(file@, old(self).separator()), dir)]
                (final(self).view_of(), match stop {
                    Some(p) => Some(p@),
                    None => None,
                }) == unwatch_step(old(self).view_of(), key_of(file@, old(self).separator()), dir),
            slash_path(file@) ==> (final(self).view_of(), match stop {
                Some(p) => Some(p@),
                None => None,
            }) == unwatch_step(
                old(self).view_of(),
                key_of(file@, old(self).separator()),
                folder_key(file@, old(self).separator()),
            ),
    {
        let key = path_key_with(file, self.sep);
        let dir = match path_parent(file) {
            Some(d) => Some(dir_key_with(d.as_str(), self.sep)),
            None => None,
        };
        let ghost v0 = self.view_of();
        let ghost dv = match &dir {
            Some(d) => Some(d@),
            None => None,
        };
        proof {
            if slash_path(file@) {
                assert(dv == folder_key(file@, self.sep));
            }
        }
        let r = self.unwatch_key(key.as_str(), dir);
        assert((self.view_of(), match r {
            Some(p) => Some(p@),
            None => None,
        }) == unwatch_step(v0, key@, dv));
        r
    }

    /// The documents that a change notice concerns: none for a mere access; else, for
    /// each path of the notice whose key is watched, the document's path as the front
    /// end knows it.
    pub fn changed_documents(&self, is_access: bool, paths: &Vec<String>) -> (changed: Vec<String>)
        requires
            self.wf(),
        ensures
            is_access ==> changed@.len() == 0,
            !is_access ==> changed@.map_values(|s: String| s@) == watched_documents(
                self.view_of().files,
                paths@.map_values(|s: String| s@),
                self.separator(),
            ),
    {
        let mut changed: Vec<String> = Vec::new();
        if is_access {
            return changed;
        }
        let ghost fv = file_entries_view(self.files@);
        proof {
            lemma_keyed_map(fv);
        }
        let ghost pv = paths@.map_values(|s: String| s@);
        let mut i: usize = 0;
        while i < paths.len()
            invariant
                i <= paths@.len(),
                self.wf(),
                fv == file_entries_view(self.files@),
                pv == paths@.map_values(|s: String| s@),
                changed@.map_values(|s: String| s@) == watched_documents(
                    keyed_map(fv),
                    pv.subrange(0, i as int),
                    self.sep,
                ),
            decreases paths@.len() - i,
        {
            proof {
                lemma_keyed_map(fv);
            }
            let key = path_key_with(paths[i].as_str(), self.sep);
            let ghost before = changed@.map_values(|s: String| s@);
            assert(pv.subrange(0, i + 1).drop_last() =~= pv.subrange(0, i as int));
            assert(pv.subrange(0, i + 1).last() == paths@[i as int]@);
            match find_key(&self.files, key.as_str()) {
                Some(j) => {
                    let known = self.files[j].1.clone();
                    proof {
                        assert(fv[j as int].0 == key@);
                        assert(keyed_map(fv)[key@] == fv[j as int].1);
                    }
                    changed.push(known);
                    assert(changed@.map_values(|s: String| s@) =~= before.push(fv[j as int].1));
                },
                None => {
                    proof {
                        assert(!keyed_map(fv).contains_key(key@)) by {
                            if keyed_map(fv).contains_key(key@) {
                                let q = choose|q: int| 0 <= q < fv.len() && fv[q].0 == key@;
                                assert(self.files@[q].0@ == key@);
                            }
                        }
                    }
                },
            }
            i = i + 1;
        }
        assert(pv.subrange(0, paths@.len() as int) =~= pv);
        changed
    }
}

} // verus!
