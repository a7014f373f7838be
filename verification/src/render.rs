//! Markdown to HTML: headings receive GitHub-style anchor ids, and raw HTML that
//! contains `<script` is turned into plain text before the HTML is written.

use vstd::prelude::*;
use pulldown_cmark::{html, CowStr, Event, Options, Parser, Tag, TagEnd};
use vstd::hash_map::StringHashMap;
use vstd::string::StringExecFns;

use crate::text::{
    ascii_lower_seq, to_ascii_lower,
    decimal, decimal_chars, lemma_decimal_injective,
    char_is_alphanumeric, char_is_whitespace, char_lowercase, chars_of, is_alphanumeric,
    is_whitespace, lowercase_char, string_from_chars, trim_chars, trim_seq,
};

verus! {

/// What the rendering rules read of one Markdown event.
pub enum MdEvent {
    /// Start of a heading, with its explicit `{#id}` if it has one.
    HeadingStart { id: Option<String> },
    /// End of a heading.
    HeadingEnd,
    /// A text node.
    Text(String),
    /// An inline code span.
    Code(String),
    /// A block of raw HTML.
    Html(String),
    /// An inline raw HTML tag.
    InlineHtml(String),
    /// Any other event; the rules leave it as it is.
    Other,
}

/// The mathematical value of an [`MdEvent`].
pub enum EventView {
    HeadingStart(Option<Seq<char>>),
    HeadingEnd,
    Text(Seq<char>),
    Code(Seq<char>),
    Html(Seq<char>),
    InlineHtml(Seq<char>),
    Other,
}

impl View for MdEvent {
    type V = EventView;

    open spec fn view(&self) -> EventView {
        match self {
            MdEvent::HeadingStart { id } => EventView::HeadingStart(
                match id {
                    Some(s) => Some(s@),
                    None => None,
                },
            ),
            MdEvent::HeadingEnd => EventView::HeadingEnd,
            MdEvent::Text(t) => EventView::Text(t@),
            MdEvent::Code(t) => EventView::Code(t@),
            MdEvent::Html(h) => EventView::Html(h@),
            MdEvent::InlineHtml(h) => EventView::InlineHtml(h@),
            MdEvent::Other => EventView::Other,
        }
    }
}

/// The values of a sequence of events.
pub open spec fn events_view(v: Seq<MdEvent>) -> Seq<EventView> {
    v.map_values(|e: MdEvent| e@)
}

// ---------------------------------------------------------------- slugs

/// What one character of a heading contributes to its slug: letters, digits, `_` and
/// `-` in lowercase, whitespace as `-`, anything else nothing.
pub open spec fn slug_piece(c: char) -> Seq<char> {
    if char_is_alphanumeric(c) || c == '_' || c == '-' {
        char_lowercase(c)
    } else if char_is_whitespace(c) {
        seq!['-']
    } else {
        Seq::empty()
    }
}

/// The slug pieces of all characters of `s`, in order.
pub open spec fn slug_body(s: Seq<char>) -> Seq<char>
    decreases s.len(),
{
    if s.len() == 0 {
        Seq::empty()
    } else {
        slug_body(s.drop_last()) + slug_piece(s.last())
    }
}

/// The slug that stands for an empty one.
pub open spec fn section_slug() -> Seq<char> {
    seq!['s', 'e', 'c', 't', 'i', 'o', 'n']
}

/// GitHub-compatible slug of a heading text: the text is trimmed, then each character
/// contributes its [`slug_piece`]; an empty result becomes `section`.
pub open spec fn slug_of(text: Seq<char>) -> Seq<char> {
    let body = slug_body(trim_seq(text));
    if body.len() == 0 {
        section_slug()
    } else {
        body
    }
}

/// A character a slug may hold: `-`, a letter of `section`, or one that lowercasing a
/// letter, digit, `_` or `-` yields.
pub open spec fn slug_char(c: char) -> bool {
    ||| c == '-'
    ||| section_slug().contains(c)
    ||| exists|a: char| (char_is_alphanumeric(a) || a == '_' || a == '-') && #[trigger] char_lowercase(a).contains(c)
}

/// Every character of a slug comes from lowercasing a letter, digit, `_` or `-` of the
/// heading, or is a `-` that stood for whitespace, or belongs to `section`: a slug never
/// holds punctuation, spaces or other characters of the heading.
pub proof fn lemma_slug_chars(text: Seq<char>)
    ensures
        forall|i: int| 0 <= i < slug_of(text).len() ==> slug_char(#[trigger] slug_of(text)[i]),
{
    lemma_slug_body_chars(trim_seq(text));
    let body = slug_body(trim_seq(text));
    if body.len() == 0 {
        assert forall|i: int| 0 <= i < section_slug().len() implies slug_char(#[trigger] section_slug()[i]) by {
            assert(section_slug().contains(section_slug()[i]));
        }
    }
}

proof fn lemma_slug_body_chars(s: Seq<char>)
    ensures
        forall|i: int| 0 <= i < slug_body(s).len() ==> slug_char(#[trigger] slug_body(s)[i]),
    decreases s.len(),
{
    if s.len() > 0 {
        lemma_slug_body_chars(s.drop_last());
        let prev = slug_body(s.drop_last());
        let piece = slug_piece(s.last());
        assert(slug_body(s) == prev + piece);
        assert forall|i: int| 0 <= i < slug_body(s).len() implies slug_char(#[trigger] slug_body(s)[i]) by {
            if i < prev.len() {
                assert(slug_body(s)[i] == prev[i]);
            } else {
                let c = piece[i - prev.len()];
                assert(slug_body(s)[i] == c);
                if char_is_alphanumeric(s.last()) || s.last() == '_' || s.last() == '-' {
                    assert(char_lowercase(s.last()).contains(c));
                }
            }
        }
    }
}

/// GitHub-compatible slug: lowercase, only letters, digits, `_` and `-` kept, whitespace
/// turned into `-`; `section` where nothing is left.
pub fn slugify(text: &str) -> (slug: String)
    ensures
        slug@ == slug_of(text@),
{
    let all = chars_of(text);
    let trimmed = trim_chars(&all);
    let n = trimmed.len();
    let mut out: Vec<char> = Vec::new();
    let mut i: usize = 0;
    while i < n
        invariant
            n == trimmed@.len(),
            i <= n,
            out@ == slug_body(trimmed@.subrange(0, i as int)),
        decreases n - i,
    {
        let c = trimmed[i];
        let ghost before = out@;
        if is_alphanumeric(c) || c == '_' || c == '-' {
            let lower = lowercase_char(c);
            let mut k: usize = 0;
            while k < lower.len()
                invariant
                    k <= lower@.len(),
                    out@ == before + lower@.subrange(0, k as int),
                decreases lower@.len() - k,
            {
                out.push(lower[k]);
                assert(out@ =~= before + lower@.subrange(0, k + 1));
                k = k + 1;
            }
            assert(lower@.subrange(0, lower@.len() as int) =~= lower@);
        } else if is_whitespace(c) {
            out.push('-');
        }
        assert(trimmed@.subrange(0, i + 1).drop_last() =~= trimmed@.subrange(0, i as int));
        assert(out@ =~= slug_body(trimmed@.subrange(0, i + 1)));
        i = i + 1;
    }
    assert(trimmed@.subrange(0, n as int) =~= trimmed@);
    if out.len() == 0 {
        let s = String::from_str("section");
        proof {
            reveal_strlit("section");
            assert(s@ =~= section_slug());
        }
        s
    } else {
        string_from_chars(out.as_slice())
    }
}


// ---------------------------------------------------------------- unique ids

/// The candidate id `base-n`.
pub open spec fn slug_key(base: Seq<char>, n: nat) -> Seq<char> {
    base + seq!['-'] + decimal(n)
}

/// Every key `k` of the map has `k-1`, ..., `k-m[k]` as keys too, and the map is finite.
pub open spec fn registry_wf(m: Map<Seq<char>, usize>) -> bool {
    &&& m.dom().finite()
    &&& forall|k: Seq<char>, j: nat|
        #![trigger m.contains_key(slug_key(k, j))]
        m.contains_key(k) && 1 <= j <= m[k] ==> m.contains_key(slug_key(k, j))
}

/// `n` is the first suffix after the counter of `base` whose candidate is free.
pub open spec fn first_free_suffix(used: Map<Seq<char>, usize>, base: Seq<char>, n: nat) -> bool {
    &&& n > used[base]
    &&& !used.contains_key(slug_key(base, n))
    &&& forall|j: nat|
        #![trigger slug_key(base, j)]
        used[base] < j < n ==> used.contains_key(slug_key(base, j))
}

/// The id that [`unique_slug`] hands out for `base`, and the ids known afterwards: `base`
/// itself when it is free; otherwise `base-n` for the first free `n` after the counter of
/// `base`, which then becomes that counter.
pub open spec fn unique_slug_result(used: Map<Seq<char>, usize>, base: Seq<char>) -> (Seq<
    char,
>, Map<Seq<char>, usize>) {
    if !used.contains_key(base) {
        (base, used.insert(base, 0))
    } else {
        let n = choose|n: nat| first_free_suffix(used, base, n);
        (slug_key(base, n), used.insert(base, n as usize).insert(slug_key(base, n), 0))
    }
}

/// The ids handed out so far, each with the counter of `-n` suffixes tried for it.
pub struct SlugRegistry {
    used: StringHashMap<usize>,
}

impl View for SlugRegistry {
    type V = Map<Seq<char>, usize>;

    closed spec fn view(&self) -> Map<Seq<char>, usize> {
        self.used@
    }
}

impl SlugRegistry {
    #[verifier::type_invariant]
    spec fn inv(self) -> bool {
        registry_wf(self.used@)
    }

    /// A registry that knows no id yet.
    pub fn new() -> (r: SlugRegistry)
        ensures
            r@ == Map::<Seq<char>, usize>::empty(),
    {
        let r = SlugRegistry { used: StringHashMap::new() };
        assert(r.used@.dom() =~= Set::<Seq<char>>::empty());
        r
    }

    /// Records an explicit id; its suffix counter starts again at 0.
    pub fn insert_explicit(&mut self, id: String)
        ensures
            final(self)@ == old(self)@.insert(id@, 0),
    {
        proof {
            use_type_invariant(&*self);
        }
        let mut m = StringHashMap::new();
        std::mem::swap(&mut m, &mut self.used);
        let ghost before = m@;
        m.insert(id, 0);
        proof {
            let after = m@;
            assert forall|k: Seq<char>, j: nat|
                #![trigger after.contains_key(slug_key(k, j))]
                after.contains_key(k) && 1 <= j <= after[k] implies after.contains_key(
                slug_key(k, j),
            ) by {
                assert(before.contains_key(slug_key(k, j)));
            }
        }
        self.used = m;
    }
}

/// `base` and its candidates `base-1` ... `base-n`.
pub open spec fn suffix_family(base: Seq<char>, n: nat) -> Set<Seq<char>>
    decreases n,
{
    if n == 0 {
        set![base]
    } else {
        suffix_family(base, (n - 1) as nat).insert(slug_key(base, n))
    }
}

/// Candidates for distinct suffixes differ, and none equals its base.
pub proof fn lemma_slug_key_injective(base: Seq<char>, a: nat, b: nat)
    ensures
        slug_key(base, a) == slug_key(base, b) ==> a == b,
        slug_key(base, a) != base,
{
    if slug_key(base, a) == slug_key(base, b) {
        let off: int = base.len() as int + 1;
        assert(slug_key(base, a).subrange(off, slug_key(base, a).len() as int) =~= decimal(a));
        assert(slug_key(base, b).subrange(off, slug_key(base, b).len() as int) =~= decimal(b));
        lemma_decimal_injective(a, b);
    }
    assert(slug_key(base, a).len() > base.len());
}

/// The family of `base` up to `n` is finite, has `n + 1` members, and holds exactly
/// `base` and `base-1` ... `base-n`.
pub proof fn lemma_suffix_family(base: Seq<char>, n: nat)
    ensures
        suffix_family(base, n).finite(),
        suffix_family(base, n).len() == n + 1,
        forall|k: Seq<char>|
            #[trigger] suffix_family(base, n).contains(k) <==> (k == base || exists|j: nat|
                1 <= j <= n && k == slug_key(base, j)),
    decreases n,
{
    if n > 0 {
        let m = (n - 1) as nat;
        lemma_suffix_family(base, m);
        lemma_slug_key_injective(base, n, n);
        assert forall|j: nat| 1 <= j <= m implies slug_key(base, j) != slug_key(base, n) by {
            lemma_slug_key_injective(base, j, n);
        }
        assert(!suffix_family(base, m).contains(slug_key(base, n)));
        assert forall|k: Seq<char>|
            #[trigger] suffix_family(base, n).contains(k) <==> (k == base || exists|j: nat|
                1 <= j <= n && k == slug_key(base, j)) by {
            if k != base && exists|j: nat| 1 <= j <= n && k == slug_key(base, j) {
                let j = choose|j: nat| 1 <= j <= n && k == slug_key(base, j);
                if j < n {
                    assert(suffix_family(base, m).contains(k));
                }
            }
        }
    }
}

/// When `base` and `base-1` ... `base-n` are all keys, the map has more than `n` keys.
pub proof fn lemma_family_bound(m: Map<Seq<char>, usize>, base: Seq<char>, n: nat)
    requires
        m.dom().finite(),
        m.contains_key(base),
        forall|j: nat| #![trigger slug_key(base, j)] 1 <= j <= n ==> m.contains_key(slug_key(base, j)),
    ensures
        n + 1 <= m.dom().len(),
{
    lemma_suffix_family(base, n);
    assert forall|k: Seq<char>| #[trigger] suffix_family(base, n).contains(k) implies m.dom().contains(
        k,
    ) by {
        if k != base {
            let j = choose|j: nat| 1 <= j <= n && k == slug_key(base, j);
            assert(m.contains_key(slug_key(base, j)));
        }
    }
    vstd::set_lib::lemma_len_subset(suffix_family(base, n), m.dom());
}

/// Builds the candidate `base-n`.
fn candidate(base: &Vec<char>, n: usize) -> (r: String)
    ensures
        r@ == slug_key(base@, n as nat),
{
    let digits = decimal_chars(n);
    let mut v: Vec<char> = Vec::new();
    let mut i: usize = 0;
    while i < base.len()
        invariant
            i <= base@.len(),
            v@ == base@.subrange(0, i as int),
        decreases base@.len() - i,
    {
        v.push(base[i]);
        assert(v@ =~= base@.subrange(0, i + 1));
        i = i + 1;
    }
    assert(base@.subrange(0, base@.len() as int) =~= base@);
    v.push('-');
    let ghost head = v@;
    let mut k: usize = 0;
    while k < digits.len()
        invariant
            k <= digits@.len(),
            v@ == head + digits@.subrange(0, k as int),
        decreases digits@.len() - k,
    {
        v.push(digits[k]);
        assert(v@ =~= head + digits@.subrange(0, k + 1));
        k = k + 1;
    }
    assert(digits@.subrange(0, digits@.len() as int) =~= digits@);
    assert(v@ =~= slug_key(base@, n as nat));
    string_from_chars(v.as_slice())
}

/// Returns `base` if no heading uses it yet, else the first free `base-n` after the last
/// suffix handed out for `base`; the returned id is recorded.
pub fn unique_slug(used: &mut SlugRegistry, base: String) -> (id: String)
    ensures
        (id@, final(used)@) == unique_slug_result(old(used)@, base@),
        !old(used)@.contains_key(id@),
        !old(used)@.contains_key(base@) ==> id@ == base@,
        old(used)@.contains_key(base@) ==> exists|n: nat|
            first_free_suffix(old(used)@, base@, n) && id@ == #[trigger] slug_key(base@, n),
{
    proof {
        use_type_invariant(&*used);
    }
    let mut map = StringHashMap::new();
    std::mem::swap(&mut map, &mut used.used);
    let ghost m = map@;
    if !map.contains_key(base.as_str()) {
        map.insert(base.clone(), 0);
        proof {
            let after = map@;
            assert forall|k: Seq<char>, j: nat|
                #![trigger after.contains_key(slug_key(k, j))]
                after.contains_key(k) && 1 <= j <= after[k] implies after.contains_key(
                slug_key(k, j),
            ) by {
                assert(m.contains_key(slug_key(k, j)));
            }
        }
        used.used = map;
        return base;
    }
    let start: usize = match map.get(base.as_str()) {
        Some(v) => *v,
        None => 0,
    };
    let total: usize = map.len();
    let base_chars = chars_of(base.as_str());
    let ghost b = base@;
    let mut n: usize = start;
    loop
        invariant
            map@ == m,
            base@ == b,
            m == old(used)@,
            registry_wf(m),
            m.contains_key(b),
            m[b] == start,
            base_chars@ == b,
            total == m.dom().len(),
            start <= n,
            forall|j: nat| #![trigger slug_key(b, j)] 1 <= j <= n ==> m.contains_key(slug_key(b, j)),
        decreases total - n,
    {
        proof {
            lemma_family_bound(m, b, n as nat);
        }
        n = n + 1;
        let cand = candidate(&base_chars, n);
        if !map.contains_key(cand.as_str()) {
            proof {
                assert(first_free_suffix(m, b, n as nat));
                let c = choose|c: nat| first_free_suffix(m, b, c);
                assert(first_free_suffix(m, b, c));
                if c < n {
                    assert(m.contains_key(slug_key(b, c)));
                }
                if c > n {
                    assert(m.contains_key(slug_key(b, n as nat)));
                }
                assert(c == n);
            }
            map.insert(base, n);
            map.insert(cand.clone(), 0);
            proof {
                let m2 = map@;
                assert(m2 =~= m.insert(b, n as usize).insert(slug_key(b, n as nat), 0));
                lemma_slug_key_injective(b, n as nat, n as nat);
                assert(m2.dom().finite());
                assert forall|k: Seq<char>, j: nat|
                    #![trigger m2.contains_key(slug_key(k, j))]
                    m2.contains_key(k) && 1 <= j <= m2[k] implies m2.contains_key(
                    slug_key(k, j),
                ) by {
                    if k == slug_key(b, n as nat) {
                    } else if k == b {
                        if j < n {
                            assert(m.contains_key(slug_key(b, j)));
                        }
                    } else {
                        assert(m.contains_key(k));
                        assert(m2[k] == m[k]);
                        assert(m.contains_key(slug_key(k, j)));
                    }
                }
                assert(m2 =~= m.insert(b, n as usize).insert(slug_key(b, n as nat), 0));
            }
            used.used = map;
            return cand;
        }
    }
}


// ---------------------------------------------------------------- heading ids

/// From index `j` on, up to the first heading end (or the end of the stream): the index
/// where the heading ends, and the text of its `Text` and `Code` events.
pub open spec fn heading_span(evs: Seq<EventView>, j: int) -> (int, Seq<char>)
    decreases evs.len() - j,
{
    if j < 0 || j >= evs.len() {
        (evs.len() as int, Seq::empty())
    } else {
        match evs[j] {
            EventView::HeadingEnd => (j, Seq::empty()),
            EventView::Text(t) => {
                let rest = heading_span(evs, j + 1);
                (rest.0, t + rest.1)
            },
            EventView::Code(t) => {
                let rest = heading_span(evs, j + 1);
                (rest.0, t + rest.1)
            },
            _ => heading_span(evs, j + 1),
        }
    }
}

/// A heading span ends no earlier than it starts and no later than the stream.
pub proof fn lemma_heading_span_bounds(evs: Seq<EventView>, j: int)
    requires
        0 <= j <= evs.len(),
    ensures
        j <= heading_span(evs, j).0 <= evs.len(),
    decreases evs.len() - j,
{
    if j < evs.len() {
        lemma_heading_span_bounds(evs, j + 1);
    }
}

/// The id of a heading and the ids known afterwards: its explicit id, recorded with a
/// fresh counter, or else the unique slug of its text.
pub open spec fn heading_id(
    explicit: Option<Seq<char>>,
    text: Seq<char>,
    used: Map<Seq<char>, usize>,
) -> (Seq<char>, Map<Seq<char>, usize>) {
    match explicit {
        Some(x) => (x, used.insert(x, 0)),
        None => unique_slug_result(used, slug_of(text)),
    }
}

/// The events from index `i` on with ids given to their headings in order, `used` being
/// the ids known so far. After a heading the scan goes on at the end of its span.
pub open spec fn assign_ids_from(evs: Seq<EventView>, i: int, used: Map<Seq<char>, usize>) -> Seq<
    EventView,
>
    decreases evs.len() - i,
{
    if i < 0 || i >= evs.len() {
        evs
    } else {
        match evs[i] {
            EventView::HeadingStart(explicit) => {
                let span = heading_span(evs, i + 1);
                let r = heading_id(explicit, span.1, used);
                proof {
                    lemma_heading_span_bounds(evs, i + 1);
                }
                assign_ids_from(evs.update(i, EventView::HeadingStart(Some(r.0))), span.0, r.1)
            },
            _ => assign_ids_from(evs, i + 1, used),
        }
    }
}

/// All events with every heading given its id.
pub open spec fn assign_ids(evs: Seq<EventView>) -> Seq<EventView> {
    assign_ids_from(evs, 0, Map::empty())
}

// ---------------------------------------------------------------- id freshness

/// Recording an explicit id keeps the ids well formed.
proof fn lemma_wf_insert_explicit(m: Map<Seq<char>, usize>, x: Seq<char>)
    requires
        registry_wf(m),
    ensures
        registry_wf(m.insert(x, 0)),
{
    let m2 = m.insert(x, 0);
    assert forall|k: Seq<char>, j: nat|
        #![trigger m2.contains_key(slug_key(k, j))]
        m2.contains_key(k) && 1 <= j <= m2[k] implies m2.contains_key(slug_key(k, j)) by {
        assert(m.contains_key(slug_key(k, j)));
    }
}

proof fn lemma_search_free(m: Map<Seq<char>, usize>, base: Seq<char>, j: nat)
    requires
        registry_wf(m),
        m.contains_key(base),
        m[base] < j,
        forall|k: nat| #![trigger slug_key(base, k)] m[base] < k < j ==> m.contains_key(slug_key(base, k)),
    ensures
        exists|n: nat| first_free_suffix(m, base, n),
    decreases m.dom().len() - j,
{
    assert forall|k: nat| #![trigger slug_key(base, k)] 1 <= k <= (j - 1) as nat implies m.contains_key(
        slug_key(base, k),
    ) by {
        if k <= m[base] {
            assert(m.contains_key(slug_key(base, k)));
        }
    }
    lemma_family_bound(m, base, (j - 1) as nat);
    if !m.contains_key(slug_key(base, j)) {
        assert(first_free_suffix(m, base, j));
    } else {
        assert forall|k: nat| #![trigger slug_key(base, k)] m[base] < k < j + 1 implies m.contains_key(
            slug_key(base, k),
        ) by {}
        lemma_family_bound(m, base, j);
        lemma_search_free(m, base, j + 1);
    }
}

/// The id handed out for `base` was not known before, is known afterwards with every
/// id known before, and the ids stay well formed.
pub proof fn lemma_unique_slug_result(m: Map<Seq<char>, usize>, base: Seq<char>)
    requires
        registry_wf(m),
    ensures
        !m.contains_key(unique_slug_result(m, base).0),
        unique_slug_result(m, base).1.contains_key(unique_slug_result(m, base).0),
        forall|k: Seq<char>| m.contains_key(k) ==> #[trigger] unique_slug_result(m, base).1.contains_key(k),
        registry_wf(unique_slug_result(m, base).1),
{
    if !m.contains_key(base) {
        lemma_wf_insert_explicit(m, base);
    } else {
        lemma_search_free(m, base, (m[base] + 1) as nat);
        let n = choose|n: nat| first_free_suffix(m, base, n);
        assert(first_free_suffix(m, base, n));
        let m2 = m.insert(base, n as usize).insert(slug_key(base, n), 0);
        assert(n <= usize::MAX ==> n as usize == n);
        assert((n as usize) <= usize::MAX);
        lemma_slug_key_injective(base, n, n);
        assert forall|k: Seq<char>, j: nat|
            #![trigger m2.contains_key(slug_key(k, j))]
            m2.contains_key(k) && 1 <= j <= m2[k] implies m2.contains_key(slug_key(k, j)) by {
            if k == slug_key(base, n) {
            } else if k == base {
                if j < n {
                    assert(m.contains_key(slug_key(base, j)));
                }
            } else {
                assert(m.contains_key(slug_key(k, j)));
            }
        }
    }
}

/// What giving a heading its id does to the known ids.
pub proof fn lemma_heading_id(explicit: Option<Seq<char>>, text: Seq<char>, used: Map<Seq<char>, usize>)
    requires
        registry_wf(used),
    ensures
        heading_id(explicit, text, used).1.contains_key(heading_id(explicit, text, used).0),
        forall|k: Seq<char>| used.contains_key(k) ==> #[trigger] heading_id(explicit, text, used).1.contains_key(k),
        registry_wf(heading_id(explicit, text, used).1),
        explicit is None ==> !used.contains_key(heading_id(explicit, text, used).0),
{
    match explicit {
        Some(x) => lemma_wf_insert_explicit(used, x),
        None => lemma_unique_slug_result(used, slug_of(text)),
    }
}

/// A heading span reads only the events from its start on.
proof fn lemma_span_update(evs: Seq<EventView>, i: int, x: EventView, j: int)
    requires
        0 <= i < j,
        i < evs.len(),
    ensures
        heading_span(evs.update(i, x), j) == heading_span(evs, j),
    decreases evs.len() - j,
{
    if j < evs.len() {
        lemma_span_update(evs, i, x, j + 1);
    }
}

/// No heading starts inside another heading (before its end): pulldown-cmark's tags are
/// balanced and headings do not nest.
pub open spec fn headings_not_nested_from(evs: Seq<EventView>, from: int) -> bool {
    forall|p: int, k: int|
        #![trigger evs[p], evs[k]]
        from <= p < evs.len() && evs[p] is HeadingStart && p < k < heading_span(evs, p + 1).0
            ==> !(evs[k] is HeadingStart)
}

/// No heading starts inside another heading.
pub open spec fn headings_not_nested(evs: Seq<EventView>) -> bool {
    headings_not_nested_from(evs, 0)
}

/// The id given to the event, when it is a heading start with one.
pub open spec fn given_id(e: EventView) -> Option<Seq<char>> {
    match e {
        EventView::HeadingStart(Some(id)) => Some(id),
        _ => None,
    }
}

proof fn lemma_fresh_from(evs: Seq<EventView>, i: int, used: Map<Seq<char>, usize>)
    requires
        0 <= i,
        registry_wf(used),
        headings_not_nested_from(evs, i),
    ensures
        assign_ids_from(evs, i, used).len() == evs.len(),
        forall|p: int| 0 <= p < i && p < evs.len() ==> #[trigger] assign_ids_from(evs, i, used)[p] == evs[p],
        forall|q: int|
            i <= q < evs.len() && evs[q] == EventView::HeadingStart(None) ==> {
                &&& #[trigger] given_id(assign_ids_from(evs, i, used)[q]) is Some
                &&& !used.contains_key(given_id(assign_ids_from(evs, i, used)[q])->0)
                &&& forall|p: int|
                    i <= p < q && #[trigger] given_id(assign_ids_from(evs, i, used)[p]) is Some ==> given_id(
                        assign_ids_from(evs, i, used)[p],
                    )->0 != given_id(assign_ids_from(evs, i, used)[q])->0
            },
    decreases evs.len() - i,
{
    lemma_assign_ids_len(evs, i, used);
    if i >= evs.len() {
        return;
    }
    let r = assign_ids_from(evs, i, used);
    match evs[i] {
        EventView::HeadingStart(explicit) => {
            let span = heading_span(evs, i + 1);
            let h = heading_id(explicit, span.1, used);
            lemma_heading_span_bounds(evs, i + 1);
            lemma_heading_id(explicit, span.1, used);
            let e2 = evs.update(i, EventView::HeadingStart(Some(h.0)));
            let end = span.0;
            assert(headings_not_nested_from(e2, end)) by {
                assert forall|p: int, k: int|
                    #![trigger e2[p], e2[k]]
                    end <= p < e2.len() && e2[p] is HeadingStart && p < k < heading_span(e2, p + 1).0
                        implies !(e2[k] is HeadingStart) by {
                    lemma_span_update(evs, i, EventView::HeadingStart(Some(h.0)), p + 1);
                    lemma_heading_span_bounds(evs, p + 1);
                    assert(e2[p] == evs[p]);
                    assert(e2[k] == evs[k]);
                }
            }
            lemma_fresh_from(e2, end, h.1);
            assert(r == assign_ids_from(e2, end, h.1));
            assert forall|q: int|
                i <= q < evs.len() && evs[q] == EventView::HeadingStart(None) implies {
                    &&& #[trigger] given_id(r[q]) is Some
                    &&& !used.contains_key(given_id(r[q])->0)
                    &&& forall|p: int|
                        i <= p < q && #[trigger] given_id(r[p]) is Some ==> given_id(r[p])->0 != given_id(
                            r[q],
                        )->0
                } by {
                if q == i {
                    assert(r[i] == e2[i]);
                } else if q < end {
                    assert(evs[i] == evs[i] && evs[q] == evs[q]);
                    assert(!(evs[q] is HeadingStart));
                } else {
                    assert(e2[q] == evs[q]);
                    assert(!h.1.contains_key(given_id(r[q])->0));
                    assert forall|p: int| i <= p < q && #[trigger] given_id(r[p]) is Some implies given_id(
                        r[p],
                    )->0 != given_id(r[q])->0 by {
                        if p == i {
                            assert(r[i] == e2[i]);
                        } else if p < end {
                            assert(r[p] == e2[p]);
                            assert(e2[p] == evs[p]);
                            assert(evs[i] is HeadingStart && evs[p] is HeadingStart);
                        }
                    }
                }
            }
            assert forall|p: int| 0 <= p < i && p < evs.len() implies #[trigger] r[p] == evs[p] by {
                assert(r[p] == e2[p]);
            }
        },
        _ => {
            assert(headings_not_nested_from(evs, i + 1)) by {
                assert forall|p: int, k: int|
                    #![trigger evs[p], evs[k]]
                    i + 1 <= p < evs.len() && evs[p] is HeadingStart && p < k < heading_span(evs, p + 1).0
                        implies !(evs[k] is HeadingStart) by {
                    lemma_heading_span_bounds(evs, p + 1);
                    assert(evs[p] is HeadingStart);
                }
            }
            lemma_fresh_from(evs, i + 1, used);
            assert(r == assign_ids_from(evs, i + 1, used));
            assert forall|q: int|
                i <= q < evs.len() && evs[q] == EventView::HeadingStart(None) implies {
                    &&& #[trigger] given_id(r[q]) is Some
                    &&& !used.contains_key(given_id(r[q])->0)
                    &&& forall|p: int|
                        i <= p < q && #[trigger] given_id(r[p]) is Some ==> given_id(r[p])->0 != given_id(
                            r[q],
                        )->0
                } by {
                assert(q != i);
                assert forall|p: int| i <= p < q && #[trigger] given_id(r[p]) is Some implies given_id(
                    r[p],
                )->0 != given_id(r[q])->0 by {
                    if p == i {
                        assert(r[i] == evs[i]);
                    }
                }
            }
        },
    }
}

/// Every heading without an explicit id gets an id, and that id differs from the id of
/// every heading before it (when headings do not nest, as in parsed Markdown).
pub proof fn lemma_generated_ids_fresh(evs: Seq<EventView>)
    requires
        headings_not_nested(evs),
    ensures
        forall|q: int|
            0 <= q < evs.len() && evs[q] == EventView::HeadingStart(None) ==> {
                &&& #[trigger] given_id(assign_ids(evs)[q]) is Some
                &&& forall|p: int|
                    0 <= p < q && #[trigger] given_id(assign_ids(evs)[p]) is Some ==> given_id(
                        assign_ids(evs)[p],
                    )->0 != given_id(assign_ids(evs)[q])->0
            },
{
    assert(registry_wf(Map::<Seq<char>, usize>::empty())) by {
        assert(Map::<Seq<char>, usize>::empty().dom() =~= Set::<Seq<char>>::empty());
    }
    lemma_fresh_from(evs, 0, Map::empty());
}

fn is_heading_end(e: &MdEvent) -> (r: bool)
    ensures
        r <==> e@ is HeadingEnd,
{
    match e {
        MdEvent::HeadingEnd => true,
        _ => false,
    }
}

/// Gives every heading an id: its explicit `{#id}` if it has one, else a unique slug of
/// its text (`text`, `text-1`, `text-2`, ... in document order).
pub fn assign_heading_ids(events: &mut Vec<MdEvent>)
    ensures
        events_view(final(events)@) == assign_ids(events_view(old(events)@)),
{
    let mut used = SlugRegistry::new();
    let mut i: usize = 0;
    let ghost goal = assign_ids(events_view(events@));
    while i < events.len()
        invariant
            i <= events@.len(),
            goal == assign_ids_from(events_view(events@), i as int, used@),
        decreases events@.len() - i,
    {
        let ghost evs = events_view(events@);
        let explicit: Option<Option<String>> = match &events[i] {
            MdEvent::HeadingStart { id: Some(s) } => Some(Some(s.clone())),
            MdEvent::HeadingStart { id: None } => Some(None),
            _ => None,
        };
        match explicit {
            None => {
                assert(!(evs[i as int] is HeadingStart));
                i = i + 1;
            },
            Some(explicit) => {
                let mut text = String::new();
                let mut j: usize = i + 1;
                proof {
                    assert(heading_span(evs, i + 1) == (heading_span(evs, i + 1).0, text@
                        + heading_span(evs, i + 1).1));
                }
                while j < events.len() && !is_heading_end(&events[j])
                    invariant
                        i < j <= events@.len(),
                        evs == events_view(events@),
                        heading_span(evs, i + 1) == (heading_span(evs, j as int).0, text@
                            + heading_span(evs, j as int).1),
                    decreases events@.len() - j,
                {
                    match &events[j] {
                        MdEvent::Text(t) => {
                            text.append(t.as_str());
                        },
                        MdEvent::Code(t) => {
                            text.append(t.as_str());
                        },
                        _ => {},
                    }
                    assert(heading_span(evs, i + 1).1 =~= text@ + heading_span(
                        evs,
                        j + 1,
                    ).1);
                    j = j + 1;
                }
                let ghost used_before = used@;
                let id = match explicit {
                    Some(x) => {
                        used.insert_explicit(x.clone());
                        x
                    },
                    None => {
                        let base = slugify(text.as_str());
                        unique_slug(&mut used, base)
                    },
                };
                proof {
                    assert(text@ =~= heading_span(evs, i + 1).1);
                    assert(heading_span(evs, i + 1).0 == j);
                    assert((id@, used@) == heading_id(
                        match evs[i as int] {
                            EventView::HeadingStart(e) => e,
                            _ => None,
                        },
                        text@,
                        used_before,
                    ));
                }
                events.set(i, MdEvent::HeadingStart { id: Some(id) });
                proof {
                    assert(events_view(events@) =~= evs.update(
                        i as int,
                        EventView::HeadingStart(Some(id@)),
                    ));
                }
                i = j;
            },
        }
    }
}


// ---------------------------------------------------------------- scripts

/// The tag opening that marks raw HTML as dangerous.
pub open spec fn script_marker() -> Seq<char> {
    seq!['<', 's', 'c', 'r', 'i', 'p', 't']
}

/// `pat` occurs in `s` at position `k`.
pub open spec fn occurs_at(s: Seq<char>, pat: Seq<char>, k: int) -> bool {
    0 <= k && k + pat.len() <= s.len() && s.subrange(k, k + pat.len()) == pat
}

/// `<script` occurs in `html` when ASCII letters are compared without case.
pub open spec fn has_script(html: Seq<char>) -> bool {
    exists|k: int| occurs_at(ascii_lower_seq(html), script_marker(), k)
}

/// Whether `html` contains `<script`, ASCII case ignored.
pub fn contains_script(html: &str) -> (r: bool)
    ensures
        r == has_script(html@),
{
    let chars = chars_of(html);
    let mut lower: Vec<char> = Vec::new();
    let mut i: usize = 0;
    while i < chars.len()
        invariant
            i <= chars@.len(),
            lower@ == ascii_lower_seq(chars@.subrange(0, i as int)),
        decreases chars@.len() - i,
    {
        lower.push(to_ascii_lower(chars[i]));
        assert(lower@ =~= ascii_lower_seq(chars@.subrange(0, i + 1)));
        i = i + 1;
    }
    assert(chars@.subrange(0, chars@.len() as int) =~= chars@);
    let pat: Vec<char> = vec!['<', 's', 'c', 'r', 'i', 'p', 't'];
    assert(pat@ =~= script_marker());
    let n = lower.len();
    if n < 7 {
        assert forall|k: int| !occurs_at(lower@, script_marker(), k) by {}
        return false;
    }
    let mut k: usize = 0;
    while k <= n - 7
        invariant
            n == lower@.len(),
            lower@ == ascii_lower_seq(html@),
            n >= 7,
            k <= n - 6,
            pat@ == script_marker(),
            forall|q: int| 0 <= q < k ==> !occurs_at(lower@, script_marker(), q),
        decreases n - k,
    {
        let mut m: usize = 0;
        while m < 7 && lower[k + m] == pat[m]
            invariant
                k + 7 <= n,
                n == lower@.len(),
                pat@ == script_marker(),
                m <= 7,
                forall|p: int| 0 <= p < m ==> lower@[k + p] == pat@[p],
            decreases 7 - m,
        {
            m = m + 1;
        }
        if m == 7 {
            assert(lower@.subrange(k as int, k + 7) =~= script_marker());
            assert(occurs_at(lower@, script_marker(), k as int));
            return true;
        }
        assert(lower@.subrange(k as int, k + 7)[m as int] != script_marker()[m as int]);
        k = k + 1;
    }
    assert forall|q: int| !occurs_at(lower@, script_marker(), q) by {
        if 0 <= q && q < k {
        }
    }
    false
}

/// A raw HTML event that contains `<script` becomes text; every other event stays.
pub open spec fn neutralized(e: EventView) -> EventView {
    match e {
        EventView::Html(h) => if has_script(h) {
            EventView::Text(h)
        } else {
            e
        },
        EventView::InlineHtml(h) => if has_script(h) {
            EventView::Text(h)
        } else {
            e
        },
        _ => e,
    }
}

/// Every event neutralized.
pub open spec fn neutralize_all(evs: Seq<EventView>) -> Seq<EventView> {
    evs.map_values(|e: EventView| neutralized(e))
}

/// Turns every raw HTML event (block or inline) that contains `<script` into a text
/// event with the same content, so that it is written escaped.
pub fn neutralize_scripts(events: &mut Vec<MdEvent>)
    ensures
        events_view(final(events)@) == neutralize_all(events_view(old(events)@)),
{
    let ghost orig = events_view(events@);
    let n = events.len();
    let mut i: usize = 0;
    while i < n
        invariant
            n == events@.len(),
            i <= n,
            orig.len() == n,
            forall|q: int| 0 <= q < i ==> events_view(events@)[q] == neutralized(orig[q]),
            forall|q: int| i <= q < n ==> events_view(events@)[q] == orig[q],
        decreases n - i,
    {
        assert(events_view(events@)[i as int] == events@[i as int]@);
        let replacement: Option<String> = match &events[i] {
            MdEvent::Html(h) => if contains_script(h.as_str()) {
                Some(h.clone())
            } else {
                None
            },
            MdEvent::InlineHtml(h) => if contains_script(h.as_str()) {
                Some(h.clone())
            } else {
                None
            },
            _ => None,
        };
        let ghost before = events@;
        match replacement {
            Some(h) => {
                events.set(i, MdEvent::Text(h));
            },
            None => {},
        }
        assert(events_view(events@)[i as int] == events@[i as int]@);
        assert(events_view(events@)[i as int] == neutralized(orig[i as int]));
        assert forall|q: int| 0 <= q < n && q != i implies events_view(events@)[q]
            == events_view(before)[q] by {
            assert(events@[q] == before[q]);
        }
        assert forall|q: int| 0 <= q < i + 1 implies events_view(events@)[q] == neutralized(
            orig[q],
        ) by {
            if q < i {
                assert(events_view(before)[q] == neutralized(orig[q]));
            }
        }
        assert forall|q: int| i + 1 <= q < n implies events_view(events@)[q] == orig[q] by {
            assert(events_view(before)[q] == orig[q]);
        }
        i = i + 1;
    }
    assert(events_view(events@) =~= neutralize_all(orig));
}

/// After neutralizing, no raw HTML event contains `<script`, and only raw HTML events
/// changed, each into a text event with the same content.
pub proof fn lemma_no_script_left(evs: Seq<EventView>)
    ensures
        neutralize_all(evs).len() == evs.len(),
        forall|i: int|
            0 <= i < evs.len() ==> match #[trigger] neutralize_all(evs)[i] {
                EventView::Html(h) => !has_script(h),
                EventView::InlineHtml(h) => !has_script(h),
                _ => true,
            },
        forall|i: int|
            0 <= i < evs.len() && !is_raw_html(evs[i]) ==> #[trigger] neutralize_all(evs)[i]
                == evs[i],
{
}

/// The rules applied before the HTML is written: heading ids first, then scripts.
pub open spec fn prepared(evs: Seq<EventView>) -> Seq<EventView> {
    neutralize_all(assign_ids(evs))
}

/// Applies the rendering rules to the events of a document.
pub fn prepare_events(events: &mut Vec<MdEvent>)
    ensures
        events_view(final(events)@) == prepared(events_view(old(events)@)),
{
    assign_heading_ids(events);
    neutralize_scripts(events);
}


// ---------------------------------------------------------------- rendering

/// `Options::ENABLE_TABLES` of pulldown-cmark.
pub const ENABLE_TABLES: u32 = 1 << 1;
/// `Options::ENABLE_FOOTNOTES` of pulldown-cmark.
pub const ENABLE_FOOTNOTES: u32 = 1 << 2;
/// `Options::ENABLE_STRIKETHROUGH` of pulldown-cmark.
pub const ENABLE_STRIKETHROUGH: u32 = 1 << 3;
/// `Options::ENABLE_TASKLISTS` of pulldown-cmark.
pub const ENABLE_TASKLISTS: u32 = 1 << 4;
/// `Options::ENABLE_HEADING_ATTRIBUTES` of pulldown-cmark.
pub const ENABLE_HEADING_ATTRIBUTES: u32 = 1 << 6;
/// `Options::ENABLE_YAML_STYLE_METADATA_BLOCKS` of pulldown-cmark.
pub const ENABLE_YAML_STYLE_METADATA_BLOCKS: u32 = 1 << 7;
/// `Options::ENABLE_GFM` of pulldown-cmark.
pub const ENABLE_GFM: u32 = 1 << 11;
/// `Options::ENABLE_DEFINITION_LIST` of pulldown-cmark.
pub const ENABLE_DEFINITION_LIST: u32 = 1 << 12;
/// `Options::ENABLE_SUPERSCRIPT` of pulldown-cmark.
pub const ENABLE_SUPERSCRIPT: u32 = 1 << 13;
/// `Options::ENABLE_SUBSCRIPT` of pulldown-cmark.
pub const ENABLE_SUBSCRIPT: u32 = 1 << 14;

/// The Markdown extensions the viewer turns on: tables, footnotes, strikethrough, task
/// lists, heading attributes, YAML metadata, GFM alerts, definition lists, superscript
/// and subscript.
pub fn markdown_options() -> (bits: u32)
    ensures
        bits == viewer_options(),
{
    ENABLE_TABLES | ENABLE_FOOTNOTES | ENABLE_STRIKETHROUGH | ENABLE_TASKLISTS
        | ENABLE_HEADING_ATTRIBUTES | ENABLE_YAML_STYLE_METADATA_BLOCKS | ENABLE_GFM
        | ENABLE_DEFINITION_LIST | ENABLE_SUPERSCRIPT | ENABLE_SUBSCRIPT
}

/// The option bits the viewer parses Markdown with.
pub open spec fn viewer_options() -> u32 {
    ENABLE_TABLES | ENABLE_FOOTNOTES | ENABLE_STRIKETHROUGH | ENABLE_TASKLISTS
        | ENABLE_HEADING_ATTRIBUTES | ENABLE_YAML_STYLE_METADATA_BLOCKS | ENABLE_GFM
        | ENABLE_DEFINITION_LIST | ENABLE_SUPERSCRIPT | ENABLE_SUBSCRIPT
}

#[verifier::external_type_specification]
#[verifier::external_body]
pub struct ExEvent<'a>(Event<'a>);

/// What pulldown-cmark's `Parser::new_ext` yields for `markdown` under the option bits
/// given, each event read as the rules see it (see [`event_model`]).
pub uninterp spec fn cmark_events(markdown: Seq<char>, options: u32) -> Seq<EventView>;

/// The HTML that pulldown-cmark's `html::push_html` writes for the events that
/// `Parser::new_ext` yields for `markdown` under `options`, after the heading at each
/// index of `ids` has been given that id and the raw HTML event at each index of
/// `as_text` has been turned into text with the same content.
pub uninterp spec fn cmark_html(
    markdown: Seq<char>,
    options: u32,
    ids: Seq<(usize, Seq<char>)>,
    as_text: Seq<usize>,
) -> Seq<char>;

/// Reads what the rules need of one pulldown-cmark event: heading starts with their
/// explicit id, heading ends, text, code and raw HTML with their content; every other
/// event becomes `Other`.
#[verifier::external_body]
fn event_model(event: &Event) -> MdEvent {
    match event {
        Event::Start(Tag::Heading { id, .. }) => MdEvent::HeadingStart {
            id: id.as_ref().map(|s| s.to_string()),
        },
        Event::End(TagEnd::Heading(_)) => MdEvent::HeadingEnd,
        Event::Text(t) => MdEvent::Text(t.to_string()),
        Event::Code(t) => MdEvent::Code(t.to_string()),
        Event::Html(h) => MdEvent::Html(h.to_string()),
        Event::InlineHtml(h) => MdEvent::InlineHtml(h.to_string()),
        _ => MdEvent::Other,
    }
}

/// Parses `markdown` with `pulldown_cmark::Parser::new_ext` under the option bits given
/// and reads each event with [`event_model`]; the result is named `cmark_events`.
#[verifier::external_body]
fn parse_model(markdown: &str, options: u32) -> (r: Vec<MdEvent>)
    ensures
        events_view(r@) == cmark_events(markdown@, options),
{
    let mut model = Vec::new();
    for event in Parser::new_ext(markdown, Options::from_bits_truncate(options)) {
        model.push(event_model(&event));
    }
    model
}

/// Parses `markdown` again, writes each id of `ids` into the id slot of the heading start
/// at its index (`Tag::Heading::id`), turns the raw HTML event at each index of
/// `as_text` into an `Event::Text` with the same content, and writes the events with
/// `html::push_html`; the result is named `cmark_html`. The indices lie within the
/// events, as `cmark_events` counts them.
#[verifier::external_body]
fn write_edited_html(markdown: &str, options: u32, ids: &Vec<(usize, String)>, as_text: &Vec<usize>) -> (r: String)
    requires
        forall|k: int| 0 <= k < ids@.len() ==> (#[trigger] ids@[k]).0 < cmark_events(markdown@, options).len(),
        forall|k: int| 0 <= k < as_text@.len() ==> #[trigger] as_text@[k] < cmark_events(markdown@, options).len(),
    ensures
        r@ == cmark_html(markdown@, options, ids@.map_values(|p: (usize, String)| (p.0, p.1@)), as_text@),
{
    let mut events: Vec<Event> = Parser::new_ext(markdown, Options::from_bits_truncate(options)).collect();
    for (i, id) in ids {
        if let Event::Start(Tag::Heading { id: slot, .. }) = &mut events[*i] {
            *slot = Some(CowStr::from(id.clone()));
        }
    }
    for i in as_text {
        events[*i] = match std::mem::replace(&mut events[*i], Event::SoftBreak) {
            Event::Html(h) | Event::InlineHtml(h) => Event::Text(h),
            other => other,
        };
    }
    let mut out = String::new();
    html::push_html(&mut out, events.into_iter());
    out
}

/// Whether the event is raw HTML, block or inline.
pub open spec fn is_raw_html(e: EventView) -> bool {
    e is Html || e is InlineHtml
}

/// The ids written into headings: for each heading start that has an id, its index and
/// the id, in order.
pub open spec fn heading_edits(evs: Seq<EventView>) -> Seq<(usize, Seq<char>)>
    decreases evs.len(),
{
    if evs.len() == 0 {
        Seq::empty()
    } else {
        let rest = heading_edits(evs.drop_last());
        match evs.last() {
            EventView::HeadingStart(Some(id)) => rest.push(((evs.len() - 1) as usize, id)),
            _ => rest,
        }
    }
}

/// The raw HTML events that became text: the indices, in order, at which `before` holds
/// raw HTML and `after` holds text.
pub open spec fn text_edits(before: Seq<EventView>, after: Seq<EventView>) -> Seq<usize>
    decreases before.len(),
{
    if before.len() == 0 {
        Seq::empty()
    } else {
        let n = before.len() - 1;
        let rest = text_edits(before.drop_last(), after);
        if is_raw_html(before[n]) && after[n] is Text {
            rest.push(n as usize)
        } else {
            rest
        }
    }
}

/// The HTML for `markdown`: pulldown-cmark's parse under the viewer's options, with the
/// ids and neutralized HTML that [`prepare_events`] decides written back into it.
pub open spec fn rendered_html(markdown: Seq<char>) -> Seq<char> {
    let evs = cmark_events(markdown, viewer_options());
    cmark_html(markdown, viewer_options(), heading_edits(prepared(evs)), text_edits(evs, prepared(evs)))
}

/// Renders Markdown to HTML. The document is parsed with pulldown-cmark; the rules of
/// [`prepare_events`] are applied to what they read of each event, and the outcome is
/// written back into the events before they are written out as HTML.
pub fn render(markdown: &str) -> (html: String)
    ensures
        html@ == rendered_html(markdown@),
{
    let options = markdown_options();
    let mut model = parse_model(markdown, options);
    let ghost before = events_view(model@);
    let n = model.len();
    let mut raw_html: Vec<bool> = Vec::new();
    let mut i: usize = 0;
    while i < n
        invariant
            n == model@.len(),
            before == events_view(model@),
            i <= n,
            raw_html@.len() == i,
            forall|k: int| 0 <= k < i ==> raw_html@[k] == is_raw_html(#[trigger] before[k]),
        decreases n - i,
    {
        let is_html = match &model[i] {
            MdEvent::Html(_) => true,
            MdEvent::InlineHtml(_) => true,
            _ => false,
        };
        raw_html.push(is_html);
        i = i + 1;
    }
    prepare_events(&mut model);
    let ghost after = events_view(model@);
    assert(after.len() == n) by {
        assert(prepared(before).len() == before.len()) by {
            lemma_assign_ids_len(before, 0, Map::empty());
        }
    }
    let mut ids: Vec<(usize, String)> = Vec::new();
    let mut as_text: Vec<usize> = Vec::new();
    let mut k: usize = 0;
    while k < n
        invariant
            n == model@.len() == raw_html@.len() == before.len(),
            after == events_view(model@),
            forall|q: int| 0 <= q < n ==> raw_html@[q] == is_raw_html(#[trigger] before[q]),
            k <= n,
            ids@.map_values(|p: (usize, String)| (p.0, p.1@)) == heading_edits(after.subrange(0, k as int)),
            as_text@ == text_edits(before.subrange(0, k as int), after),
            forall|q: int| 0 <= q < ids@.len() ==> (#[trigger] ids@[q]).0 < k,
            forall|q: int| 0 <= q < as_text@.len() ==> #[trigger] as_text@[q] < k,
        decreases n - k,
    {
        let ghost ids_before = ids@.map_values(|p: (usize, String)| (p.0, p.1@));
        assert(after.subrange(0, k + 1).drop_last() =~= after.subrange(0, k as int));
        assert(before.subrange(0, k + 1).drop_last() =~= before.subrange(0, k as int));
        assert(after.subrange(0, k + 1).last() == after[k as int]);
        match &model[k] {
            MdEvent::HeadingStart { id: Some(id) } => {
                ids.push((k, id.clone()));
                assert(ids@.map_values(|p: (usize, String)| (p.0, p.1@)) =~= ids_before.push((k, id@)));
            },
            MdEvent::Text(_) => {
                if raw_html[k] {
                    as_text.push(k);
                }
            },
            _ => {},
        }
        k = k + 1;
    }
    assert(after.subrange(0, n as int) =~= after);
    assert(before.subrange(0, n as int) =~= before);
    write_edited_html(markdown, options, &ids, &as_text)
}

/// Giving ids keeps the number of events.
pub proof fn lemma_assign_ids_len(evs: Seq<EventView>, i: int, used: Map<Seq<char>, usize>)
    ensures
        assign_ids_from(evs, i, used).len() == evs.len(),
    decreases evs.len() - i,
{
    if 0 <= i < evs.len() {
        match evs[i] {
            EventView::HeadingStart(explicit) => {
                let span = heading_span(evs, i + 1);
                let r = heading_id(explicit, span.1, used);
                lemma_heading_span_bounds(evs, i + 1);
                lemma_assign_ids_len(
                    evs.update(i, EventView::HeadingStart(Some(r.0))),
                    span.0,
                    r.1,
                );
            },
            _ => lemma_assign_ids_len(evs, i + 1, used),
        }
    }
}

} // verus!

verus! {

/// Giving ids leaves every event that is not a heading start as it was.
pub proof fn lemma_assign_ids_keeps_others(evs: Seq<EventView>, i: int, used: Map<Seq<char>, usize>)
    ensures
        forall|k: int|
            0 <= k < evs.len() && !(evs[k] is HeadingStart) ==> #[trigger] assign_ids_from(evs, i, used)[k]
                == evs[k],
    decreases evs.len() - i,
{
    if 0 <= i < evs.len() {
        match evs[i] {
            EventView::HeadingStart(explicit) => {
                let span = heading_span(evs, i + 1);
                let r = heading_id(explicit, span.1, used);
                lemma_heading_span_bounds(evs, i + 1);
                let e2 = evs.update(i, EventView::HeadingStart(Some(r.0)));
                lemma_assign_ids_keeps_others(e2, span.0, r.1);
                lemma_assign_ids_len(e2, span.0, r.1);
                assert forall|k: int|
                    0 <= k < evs.len() && !(evs[k] is HeadingStart) implies #[trigger] assign_ids_from(
                    evs,
                    i,
                    used,
                )[k] == evs[k] by {
                    assert(k != i);
                    assert(e2[k] == evs[k]);
                    assert(assign_ids_from(evs, i, used) == assign_ids_from(e2, span.0, r.1));
                    assert(assign_ids_from(e2, span.0, r.1)[k] == e2[k]);
                }
            },
            _ => {
                lemma_assign_ids_keeps_others(evs, i + 1, used);
                assert forall|k: int|
                    0 <= k < evs.len() && !(evs[k] is HeadingStart) implies #[trigger] assign_ids_from(
                    evs,
                    i,
                    used,
                )[k] == evs[k] by {
                    assert(assign_ids_from(evs, i, used) == assign_ids_from(evs, i + 1, used));
                }
            },
        }
    }
}

/// The indices in `text_edits(before, after)` are exactly those at which `before` holds
/// raw HTML and `after` holds text.
proof fn lemma_text_edits(before: Seq<EventView>, after: Seq<EventView>)
    requires
        before.len() <= usize::MAX,
    ensures
        forall|k: int|
            0 <= k < before.len() ==> (text_edits(before, after).contains(k as usize) <==> (is_raw_html(before[k])
                && after[k] is Text)),
        forall|q: int| 0 <= q < text_edits(before, after).len() ==> #[trigger] text_edits(before, after)[q] < before.len(),
    decreases before.len(),
{
    if before.len() > 0 {
        let n = before.len() - 1;
        let prev = before.drop_last();
        lemma_text_edits(prev, after);
        let rest = text_edits(prev, after);
        assert forall|k: int|
            0 <= k < before.len() implies (text_edits(before, after).contains(k as usize) <==> (is_raw_html(before[k])
            && after[k] is Text)) by {
            if k < n {
                assert(prev[k] == before[k]);
                if text_edits(before, after).contains(k as usize) {
                    let q = choose|q: int| 0 <= q < text_edits(before, after).len() && text_edits(before, after)[q] == k as usize;
                    if q < rest.len() {
                        assert(rest[q] == k as usize);
                    }
                }
                if rest.contains(k as usize) {
                    let q = choose|q: int| 0 <= q < rest.len() && rest[q] == k as usize;
                    assert(text_edits(before, after)[q] == k as usize);
                }
            } else {
                if is_raw_html(before[k]) && after[k] is Text {
                    assert(text_edits(before, after)[rest.len() as int] == k as usize);
                } else if text_edits(before, after).contains(k as usize) {
                    let q = choose|q: int| 0 <= q < text_edits(before, after).len() && text_edits(before, after)[q] == k as usize;
                    assert(rest[q] < prev.len());
                }
            }
        }
    }
}

/// The content of a raw HTML event.
pub open spec fn raw_content(e: EventView) -> Seq<char> {
    match e {
        EventView::Html(h) => h,
        EventView::InlineHtml(h) => h,
        _ => Seq::empty(),
    }
}

/// What is written of raw HTML: a raw HTML event of the parse is handed over to be
/// written as text exactly when it contains `<script` (ASCII case ignored); every other
/// raw HTML event is written as HTML.
pub proof fn lemma_scripts_written_as_text(evs: Seq<EventView>)
    requires
        evs.len() <= usize::MAX,
    ensures
        forall|k: int|
            0 <= k < evs.len() && is_raw_html(evs[k]) ==> (text_edits(evs, prepared(evs)).contains(k as usize)
                <==> has_script(raw_content(evs[k]))),
{
    lemma_assign_ids_len(evs, 0, Map::empty());
    lemma_assign_ids_keeps_others(evs, 0, Map::empty());
    lemma_text_edits(evs, prepared(evs));
    assert forall|k: int| 0 <= k < evs.len() && is_raw_html(evs[k]) implies (text_edits(evs, prepared(evs)).contains(
        k as usize,
    ) <==> has_script(raw_content(evs[k]))) by {
        assert(assign_ids(evs)[k] == evs[k]);
        assert(prepared(evs)[k] == neutralized(evs[k]));
    }
}

} // verus!

verus! {

/// Every character is ASCII.
pub open spec fn all_ascii(s: Seq<char>) -> bool {
    forall|i: int| 0 <= i < s.len() ==> (#[trigger] s[i] as u32) < 128
}

/// A character of an ASCII slug: a lowercase letter, a digit, `_` or `-`.
pub open spec fn ascii_slug_char(c: char) -> bool {
    ('a' <= c && c <= 'z') || ('0' <= c && c <= '9') || c == '_' || c == '-'
}

/// All characters of `s` are ASCII slug characters.
pub open spec fn ascii_slug(s: Seq<char>) -> bool {
    forall|i: int| 0 <= i < s.len() ==> ascii_slug_char(#[trigger] s[i])
}

proof fn lemma_trim_start_ascii(s: Seq<char>)
    requires
        all_ascii(s),
    ensures
        all_ascii(crate::text::trim_start_seq(s)),
    decreases s.len(),
{
    if s.len() > 0 && char_is_whitespace(s[0]) {
        assert(all_ascii(s.drop_first())) by {
            assert forall|i: int| 0 <= i < s.drop_first().len() implies (#[trigger] s.drop_first()[i] as u32) < 128 by {
                assert(s.drop_first()[i] == s[i + 1]);
            }
        }
        lemma_trim_start_ascii(s.drop_first());
    }
}

proof fn lemma_trim_end_ascii(s: Seq<char>)
    requires
        all_ascii(s),
    ensures
        all_ascii(crate::text::trim_end_seq(s)),
    decreases s.len(),
{
    if s.len() > 0 && char_is_whitespace(s.last()) {
        assert(all_ascii(s.drop_last())) by {
            assert forall|i: int| 0 <= i < s.drop_last().len() implies (#[trigger] s.drop_last()[i] as u32) < 128 by {
                assert(s.drop_last()[i] == s[i]);
            }
        }
        lemma_trim_end_ascii(s.drop_last());
    }
}

proof fn lemma_slug_body_ascii(s: Seq<char>)
    requires
        all_ascii(s),
    ensures
        ascii_slug(slug_body(s)),
    decreases s.len(),
{
    if s.len() > 0 {
        let p = s.drop_last();
        assert(all_ascii(p)) by {
            assert forall|i: int| 0 <= i < p.len() implies (#[trigger] p[i] as u32) < 128 by {
                assert(p[i] == s[i]);
            }
        }
        lemma_slug_body_ascii(p);
        let c = s.last();
        assert((c as u32) < 128) by {
            assert(s[s.len() - 1] == c);
        }
        let piece = slug_piece(c);
        assert(ascii_slug(piece));
        let b = slug_body(s);
        assert(b == slug_body(p) + piece);
        assert forall|i: int| 0 <= i < b.len() implies ascii_slug_char(#[trigger] b[i]) by {
            if i < slug_body(p).len() {
                assert(b[i] == slug_body(p)[i]);
            } else {
                assert(b[i] == piece[i - slug_body(p).len()]);
            }
        }
    }
}

proof fn lemma_slug_body_fixed(s: Seq<char>)
    requires
        ascii_slug(s),
    ensures
        slug_body(s) == s,
    decreases s.len(),
{
    if s.len() > 0 {
        let p = s.drop_last();
        assert(ascii_slug(p)) by {
            assert forall|i: int| 0 <= i < p.len() implies ascii_slug_char(#[trigger] p[i]) by {
                assert(p[i] == s[i]);
            }
        }
        lemma_slug_body_fixed(p);
        let c = s.last();
        assert(ascii_slug_char(c)) by {
            assert(s[s.len() - 1] == c);
        }
        assert(slug_piece(c) == seq![c]);
        assert(p + seq![c] =~= s);
    }
}

/// The slug of ASCII text holds only lowercase letters, digits, `_` and `-`, and
/// slugifying a slug again gives it back.
pub proof fn lemma_ascii_slug(text: Seq<char>)
    requires
        all_ascii(text),
    ensures
        ascii_slug(slug_of(text)),
        slug_of(slug_of(text)) == slug_of(text),
{
    lemma_trim_start_ascii(text);
    lemma_trim_end_ascii(crate::text::trim_start_seq(text));
    lemma_slug_body_ascii(trim_seq(text));
    let t = slug_of(text);
    assert(ascii_slug(section_slug())) by {
        assert forall|i: int| 0 <= i < section_slug().len() implies ascii_slug_char(#[trigger] section_slug()[i]) by {
        }
    }
    assert(ascii_slug(t));
    assert(t.len() > 0);
    assert(!char_is_whitespace(t[0]));
    assert(crate::text::trim_start_seq(t) == t);
    assert(!char_is_whitespace(t.last())) by {
        assert(t[t.len() - 1] == t.last());
    }
    assert(crate::text::trim_end_seq(t) == t);
    lemma_slug_body_fixed(t);
}

} // verus!

verus! {

/// The text an event contributes to its heading's text: its content for text and code,
/// nothing for any other event.
pub open spec fn event_text(e: EventView) -> Seq<char> {
    match e {
        EventView::Text(t) => t,
        EventView::Code(t) => t,
        _ => Seq::empty(),
    }
}

/// The text and code contents of `s`, concatenated in order.
pub open spec fn texts_of(s: Seq<EventView>) -> Seq<char>
    decreases s.len(),
{
    if s.len() == 0 {
        Seq::empty()
    } else {
        texts_of(s.drop_last()) + event_text(s.last())
    }
}

proof fn lemma_texts_of_front(x: EventView, s: Seq<EventView>)
    ensures
        texts_of(seq![x] + s) == event_text(x) + texts_of(s),
    decreases s.len(),
{
    if s.len() == 0 {
        assert(seq![x] + s =~= seq![x]);
        assert(seq![x].drop_last() =~= Seq::<EventView>::empty());
        assert(texts_of(seq![x]) == texts_of(seq![x].drop_last()) + event_text(seq![x].last()));
        assert(texts_of(Seq::<EventView>::empty()) == Seq::<char>::empty());
        assert(texts_of(seq![x]) =~= event_text(x));
        assert(event_text(x) + texts_of(s) =~= event_text(x));
    } else {
        lemma_texts_of_front(x, s.drop_last());
        assert((seq![x] + s).drop_last() =~= seq![x] + s.drop_last());
        assert((seq![x] + s).last() == s.last());
        assert(texts_of(seq![x] + s) =~= event_text(x) + texts_of(s.drop_last()) + event_text(s.last()));
        assert(event_text(x) + texts_of(s) =~= event_text(x) + texts_of(s.drop_last()) + event_text(s.last()));
    }
}

/// A heading's text runs from `j` to the first heading end (or the end of the events)
/// and is the concatenation of the contents of every text and code event in between,
/// whatever other events (emphasis, links, images) lie among them.
pub proof fn lemma_heading_span_text(evs: Seq<EventView>, j: int)
    requires
        0 <= j <= evs.len(),
    ensures
        j <= heading_span(evs, j).0 <= evs.len(),
        forall|k: int| j <= k < heading_span(evs, j).0 ==> !(#[trigger] evs[k] is HeadingEnd),
        heading_span(evs, j).0 < evs.len() ==> evs[heading_span(evs, j).0] is HeadingEnd,
        heading_span(evs, j).1 == texts_of(evs.subrange(j, heading_span(evs, j).0)),
    decreases evs.len() - j,
{
    if j == evs.len() {
        assert(evs.subrange(j, j) =~= Seq::<EventView>::empty());
    } else if evs[j] is HeadingEnd {
        assert(evs.subrange(j, j) =~= Seq::<EventView>::empty());
    } else {
        lemma_heading_span_text(evs, j + 1);
        let e = heading_span(evs, j).0;
        assert(e == heading_span(evs, j + 1).0);
        assert(evs.subrange(j, e) =~= seq![evs[j]] + evs.subrange(j + 1, e));
        lemma_texts_of_front(evs[j], evs.subrange(j + 1, e));
        assert forall|k: int| j <= k < e implies !(#[trigger] evs[k] is HeadingEnd) by {
            if k > j {
            }
        }
    }
}

} // verus!
