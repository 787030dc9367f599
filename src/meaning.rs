use vstd::prelude::*;
use crate::text::{
    chars_of, string_of, slice_of, trim, trim_chars, contains, contains_exec, chars_eq,
    find_from, find_char, is_ws, lemma_find_from,
};

verus! {

/// Longest normalized tag key, in characters.
pub const TAG_KEY_MAX_LEN: usize = 64;

/// What `char::to_lowercase` yields for `c`.
pub uninterp spec fn lower_char_of(c: char) -> Seq<char>;

/// Relies on `char::to_lowercase`: the lowercase mapping of `c`, one or
/// more characters.
#[verifier::external_body]
fn lowercase_char(c: char) -> (r: Vec<char>)
    ensures
        r@ == lower_char_of(c),
{
    c.to_lowercase().collect()
}

/// Each character of `s` replaced by its lowercase mapping.
pub open spec fn lowered(s: Seq<char>) -> Seq<char>
    decreases s.len(),
{
    if s.len() == 0 {
        Seq::empty()
    } else {
        lowered(s.drop_last()) + lower_char_of(s.last())
    }
}

/// An ASCII letter or digit.
pub open spec fn is_ascii_alnum(c: char) -> bool {
    ('0' <= c && c <= '9') || ('a' <= c && c <= 'z') || ('A' <= c && c <= 'Z')
}

fn is_ascii_alnum_exec(c: char) -> (r: bool)
    ensures
        r == is_ascii_alnum(c),
{
    ('0' <= c && c <= '9') || ('a' <= c && c <= 'z') || ('A' <= c && c <= 'Z')
}

/// `s` with every run of characters that are not ASCII letters or digits
/// replaced by one `-`; and whether it ends in such a run.
pub open spec fn collapse(s: Seq<char>) -> (Seq<char>, bool)
    decreases s.len(),
{
    if s.len() == 0 {
        (Seq::empty(), false)
    } else {
        let p = collapse(s.drop_last());
        let c = s.last();
        if is_ascii_alnum(c) {
            (p.0.push(c), false)
        } else if !p.1 {
            (p.0.push('-'), true)
        } else {
            p
        }
    }
}

/// `s` without leading `-`.
pub open spec fn strip_start_dash(s: Seq<char>) -> Seq<char>
    decreases s.len(),
{
    if s.len() > 0 && s[0] == '-' {
        strip_start_dash(s.drop_first())
    } else {
        s
    }
}

/// `s` without trailing `-`.
pub open spec fn strip_end_dash(s: Seq<char>) -> Seq<char>
    decreases s.len(),
{
    if s.len() > 0 && s.last() == '-' {
        strip_end_dash(s.drop_last())
    } else {
        s
    }
}

/// `s` without leading and trailing `-`.
pub open spec fn strip_dashes(s: Seq<char>) -> Seq<char> {
    strip_end_dash(strip_start_dash(s))
}

/// The first `n` characters of `s` (all of it when shorter).
pub open spec fn first_chars(s: Seq<char>, n: int) -> Seq<char> {
    if s.len() <= n {
        s
    } else {
        s.subrange(0, n)
    }
}

/// The normal form of a tag: lowercased, each run of characters that are
/// not ASCII letters or digits made one `-`, `-` trimmed from both ends,
/// cut to 64 characters and trimmed again; nothing if that leaves it empty.
pub open spec fn normalize_spec(input: Seq<char>) -> Option<Seq<char>> {
    normalize_lowered_spec(lowered(input))
}

/// What normalization does once the tag is lowercased: runs of characters
/// other than ASCII letters and digits made one `-`, `-` trimmed, cut to
/// 64 characters and trimmed again; nothing if that leaves it empty.
pub open spec fn normalize_lowered_spec(l: Seq<char>) -> Option<Seq<char>> {
    let n = strip_dashes(collapse(l).0);
    if n.len() == 0 {
        None
    } else {
        let s = strip_dashes(first_chars(n, TAG_KEY_MAX_LEN as int));
        if s.len() == 0 {
            None
        } else {
            Some(s)
        }
    }
}

proof fn lemma_strip_start_sub(s: Seq<char>, i: int)
    requires
        0 <= i <= s.len(),
        forall|k: int| 0 <= k < i ==> #[trigger] s[k] == '-',
    ensures
        strip_start_dash(s) == strip_start_dash(s.subrange(i, s.len() as int)),
    decreases i,
{
    if i > 0 {
        lemma_strip_start_sub(s.drop_first(), i - 1);
        assert(s.drop_first().subrange(i - 1, s.drop_first().len() as int) == s.subrange(
            i,
            s.len() as int,
        ));
    } else {
        assert(s.subrange(0, s.len() as int) == s);
    }
}

proof fn lemma_strip_end_sub(s: Seq<char>, j: int)
    requires
        0 <= j <= s.len(),
        forall|k: int| j <= k < s.len() ==> #[trigger] s[k] == '-',
    ensures
        strip_end_dash(s) == strip_end_dash(s.subrange(0, j)),
    decreases s.len() - j,
{
    if j < s.len() {
        lemma_strip_end_sub(s.drop_last(), j);
        assert(s.drop_last().subrange(0, j) == s.subrange(0, j));
    } else {
        assert(s.subrange(0, s.len() as int) == s);
    }
}

/// `v` without leading and trailing `-`.
fn strip_dashes_exec(v: &Vec<char>) -> (r: Vec<char>)
    ensures
        r@ == strip_dashes(v@),
{
    let mut a: usize = 0;
    while a < v.len() && v[a] == '-'
        invariant
            a <= v@.len(),
            forall|k: int| 0 <= k < a ==> #[trigger] v@[k] == '-',
        decreases v@.len() - a,
    {
        a = a + 1;
    }
    proof {
        lemma_strip_start_sub(v@, a as int);
    }
    let ghost rest = v@.subrange(a as int, v@.len() as int);
    assert(strip_start_dash(v@) == rest);
    let mut b: usize = v.len();
    while b > a && v[b - 1] == '-'
        invariant
            a <= b <= v@.len(),
            forall|k: int| b <= k < v@.len() ==> #[trigger] v@[k] == '-',
        decreases b,
    {
        b = b - 1;
    }
    proof {
        assert forall|k: int| b - a <= k < rest.len() implies #[trigger] rest[k] == '-' by {
            assert(rest[k] == v@[k + a]);
        }
        lemma_strip_end_sub(rest, b - a);
        assert(rest.subrange(0, b - a) == v@.subrange(a as int, b as int));
    }
    slice_of(v, a, b)
}

/// Normalizes a tag key: lowercase; each run of characters other than
/// ASCII letters and digits becomes one `-`; `-` is trimmed from both
/// ends; the key is cut to 64 characters and trimmed again. `None` when
/// nothing is left.
pub fn normalize_tag_key(input: &str) -> (r: Option<String>)
    ensures
        match normalize_spec(input@) {
            None => r is None,
            Some(k) => r matches Some(s) && s@ == k,
        },
{
    let v = chars_of(input);
    let mut low: Vec<char> = Vec::new();
    let mut i: usize = 0;
    assert(v@.subrange(0, 0) =~= Seq::<char>::empty());
    while i < v.len()
        invariant
            i <= v@.len(),
            low@ == lowered(v@.subrange(0, i as int)),
        decreases v@.len() - i,
    {
        let mut lc = lowercase_char(v[i]);
        let ghost done = low@;
        let ghost lcv = lc@;
        low.append(&mut lc);
        assert(v@.subrange(0, i + 1).drop_last() =~= v@.subrange(0, i as int));
        assert(low@ == done + lcv);
        i = i + 1;
    }
    assert(v@.subrange(0, v@.len() as int) =~= v@);
    normalize_lowered(&low)
}

/// Normalizes an already lowercased tag key (see `normalize_tag_key`).
pub fn normalize_lowered(l: &Vec<char>) -> (r: Option<String>)
    ensures
        match normalize_lowered_spec(l@) {
            None => r is None,
            Some(k) => r matches Some(s) && s@ == k,
        },
{
    let mut out: Vec<char> = Vec::new();
    let mut prev_dash = false;
    let mut j: usize = 0;
    assert(l@.subrange(0, 0) =~= Seq::<char>::empty());
    while j < l.len()
        invariant
            j <= l@.len(),
            collapse(l@.subrange(0, j as int)) == (out@, prev_dash),
        decreases l@.len() - j,
    {
        let c = l[j];
        assert(l@.subrange(0, j + 1).drop_last() =~= l@.subrange(0, j as int));
        if is_ascii_alnum_exec(c) {
            out.push(c);
            prev_dash = false;
        } else if !prev_dash {
            out.push('-');
            prev_dash = true;
        }
        j = j + 1;
    }
    assert(l@.subrange(0, l@.len() as int) =~= l@);
    let normalized = strip_dashes_exec(&out);
    if normalized.len() == 0 {
        return None;
    }
    let cut = if normalized.len() <= TAG_KEY_MAX_LEN {
        normalized
    } else {
        slice_of(&normalized, 0, TAG_KEY_MAX_LEN)
    };
    let shortened = strip_dashes_exec(&cut);
    if shortened.len() == 0 {
        None
    } else {
        Some(string_of(shortened.as_slice()))
    }
}

/// How a payload is held against a tag's required meaning.
#[derive(Clone, Copy, Debug, PartialEq, Eq, Structural)]
pub enum MeaningMatchMode {
    /// The trimmed payload equals the trimmed meaning.
    Exact,
    /// The payload contains the meaning.
    Contains,
}

/// `Exact` for identifier tags (`id`, `...-id`, `...-id-...`), else
/// `Contains`.
pub open spec fn mode_for(tag: Seq<char>) -> MeaningMatchMode {
    if tag == seq!['i', 'd'] || (tag.len() >= 3 && tag.subrange(tag.len() - 3, tag.len() as int)
        == seq!['-', 'i', 'd']) || contains(tag, seq!['-', 'i', 'd', '-']) {
        MeaningMatchMode::Exact
    } else {
        MeaningMatchMode::Contains
    }
}

/// Whether `payload` meets `required` under `mode`.
pub open spec fn matches_spec(mode: MeaningMatchMode, required: Seq<char>, payload: Seq<char>) -> bool {
    match mode {
        MeaningMatchMode::Exact => trim(payload) == trim(required),
        MeaningMatchMode::Contains => contains(payload, required),
    }
}

/// The match mode of a normalized tag.
pub fn match_mode_for_tag(tag: &str) -> (r: MeaningMatchMode)
    ensures
        r == mode_for(tag@),
{
    let v = chars_of(tag);
    let id = vec!['i', 'd'];
    let dash_id = vec!['-', 'i', 'd'];
    let inner = vec!['-', 'i', 'd', '-'];
    assert(id@ == seq!['i', 'd']);
    assert(dash_id@ == seq!['-', 'i', 'd']);
    assert(inner@ == seq!['-', 'i', 'd', '-']);
    let ends = v.len() >= 3 && chars_eq(&slice_of(&v, v.len() - 3, v.len()), &dash_id);
    if chars_eq(&v, &id) || ends || contains_exec(&v, &inner) {
        MeaningMatchMode::Exact
    } else {
        MeaningMatchMode::Contains
    }
}

/// Whether `payload` meets `required` under `mode`.
pub fn meaning_matches(mode: MeaningMatchMode, required: &str, payload: &str) -> (r: bool)
    ensures
        r == matches_spec(mode, required@, payload@),
{
    let p = chars_of(payload);
    let q = chars_of(required);
    match mode {
        MeaningMatchMode::Exact => chars_eq(&trim_chars(&p), &trim_chars(&q)),
        MeaningMatchMode::Contains => contains_exec(&p, &q),
    }
}

/// The meaning given to key `k` by a list of (tag, meaning) pairs: that of
/// the last pair whose tag normalizes to `k`.
pub open spec fn last_meaning(raw: Seq<(Seq<char>, Seq<char>)>, k: Seq<char>) -> Option<Seq<char>>
    decreases raw.len(),
{
    if raw.len() == 0 {
        None
    } else {
        match last_meaning(raw.drop_first(), k) {
            Some(m) => Some(m),
            None => if normalize_spec(raw[0].0) == Some(k) {
                Some(raw[0].1)
            } else {
                None
            },
        }
    }
}

/// Lookup in a list of (key, meaning) entries, the last entry first.
pub open spec fn lookup(e: Seq<(Seq<char>, Seq<char>)>, k: Seq<char>) -> Option<Seq<char>>
    decreases e.len(),
{
    if e.len() == 0 {
        None
    } else if e.last().0 == k {
        Some(e.last().1)
    } else {
        lookup(e.drop_last(), k)
    }
}

/// No key occurs twice.
pub open spec fn distinct_keys(e: Seq<(Seq<char>, Seq<char>)>) -> bool {
    forall|i: int, j: int| 0 <= i < j < e.len() ==> e[i].0 != e[j].0
}

proof fn lemma_lookup_none(e: Seq<(Seq<char>, Seq<char>)>, k: Seq<char>)
    requires
        lookup(e, k) is None,
    ensures
        forall|i: int| 0 <= i < e.len() ==> e[i].0 != k,
    decreases e.len(),
{
    if e.len() > 0 {
        lemma_lookup_none(e.drop_last(), k);
        assert forall|i: int| 0 <= i < e.len() implies e[i].0 != k by {
            if i < e.len() - 1 {
                assert(e[i] == e.drop_last()[i]);
            }
        }
    }
}

proof fn lemma_lookup_absent(e: Seq<(Seq<char>, Seq<char>)>, k: Seq<char>)
    requires
        forall|i: int| 0 <= i < e.len() ==> e[i].0 != k,
    ensures
        lookup(e, k) is None,
    decreases e.len(),
{
    if e.len() > 0 {
        assert forall|i: int| 0 <= i < e.drop_last().len() implies e.drop_last()[i].0 != k by {
            assert(e.drop_last()[i] == e[i]);
        }
        lemma_lookup_absent(e.drop_last(), k);
    }
}

proof fn lemma_lookup_at(e: Seq<(Seq<char>, Seq<char>)>, k: Seq<char>, x: int)
    requires
        0 <= x < e.len(),
        e[x].0 == k,
        forall|j: int| x < j < e.len() ==> e[j].0 != k,
    ensures
        lookup(e, k) == Some(e[x].1),
    decreases e.len(),
{
    if x < e.len() - 1 {
        assert forall|j: int| x < j < e.drop_last().len() implies e.drop_last()[j].0 != k by {
            assert(e.drop_last()[j] == e[j]);
        }
        lemma_lookup_at(e.drop_last(), k, x);
    }
}

/// The pairs as seen by the contracts: (tag, meaning) views.
pub open spec fn pairs_view(v: Seq<(String, String)>) -> Seq<(Seq<char>, Seq<char>)> {
    v.map_values(|p: (String, String)| (p.0@, p.1@))
}

/// Finds the meaning stored under key `k`.
fn find_entry(e: &Vec<(String, String)>, k: &String) -> (r: Option<usize>)
    ensures
        match lookup(pairs_view(e@), k@) {
            None => r is None,
            Some(m) => r matches Some(i) && i < e@.len() && e@[i as int].1@ == m,
        },
{
    let mut i: usize = e.len();
    assert(pairs_view(e@).subrange(0, e@.len() as int) =~= pairs_view(e@));
    while i > 0
        invariant
            i <= e@.len(),
            lookup(pairs_view(e@), k@) == lookup(pairs_view(e@).subrange(0, i as int), k@),
        decreases i,
    {
        let ghost sub = pairs_view(e@).subrange(0, i as int);
        assert(sub.drop_last() =~= pairs_view(e@).subrange(0, i - 1));
        if e[i - 1].0 == *k {
            return Some(i - 1);
        }
        i = i - 1;
    }
    None
}

/// Normalized tag keys and their required meanings, each key once.
#[derive(Clone, Debug)]
pub struct TagIndex {
    entries: Vec<(String, String)>,
}

impl TagIndex {
    /// The entries as (key, meaning).
    pub closed spec fn view_entries(self) -> Seq<(Seq<char>, Seq<char>)> {
        pairs_view(self.entries@)
    }

    /// The meaning stored under the normalized key `k`.
    pub open spec fn meaning(self, k: Seq<char>) -> Option<Seq<char>> {
        lookup(self.view_entries(), k)
    }

    /// Each key is stored once.
    pub open spec fn wf(self) -> bool {
        distinct_keys(self.view_entries())
    }

    /// Builds the index from (tag, meaning) pairs: each tag is normalized
    /// (pairs whose tag normalizes to nothing are dropped) and, of pairs
    /// with the same key, the later wins.
    pub fn from_map(raw: Vec<(String, String)>) -> (r: TagIndex)
        ensures
            r.wf(),
            forall|k: Seq<char>| #[trigger] r.meaning(k) == last_meaning(pairs_view(raw@), k),
    {
        let ghost rv = pairs_view(raw@);
        let mut out: Vec<(String, String)> = Vec::new();
        let mut i: usize = raw.len();
        assert(rv.subrange(raw@.len() as int, raw@.len() as int) =~= Seq::<(Seq<char>, Seq<char>)>::empty());
        while i > 0
            invariant
                i <= raw@.len(),
                rv == pairs_view(raw@),
                distinct_keys(pairs_view(out@)),
                forall|k: Seq<char>| #[trigger] lookup(pairs_view(out@), k) == last_meaning(
                    rv.subrange(i as int, rv.len() as int),
                    k,
                ),
            decreases i,
        {
            let ghost suffix = rv.subrange(i - 1, rv.len() as int);
            assert(suffix.drop_first() =~= rv.subrange(i as int, rv.len() as int));
            assert(suffix[0] == rv[i - 1]);
            let ghost before = pairs_view(out@);
            let ghost nk = normalize_spec(rv[i - 1].0);
            match normalize_tag_key(raw[i - 1].0.as_str()) {
                None => {},
                Some(key) => {
                    if find_entry(&out, &key).is_none() {
                        proof {
                            lemma_lookup_none(before, key@);
                        }
                        out.push((key, raw[i - 1].1.clone()));
                        assert(pairs_view(out@) =~= before.push((key@, rv[i - 1].1)));
                    }
                },
            }
            assert(nk is None ==> pairs_view(out@) == before);
            assert(nk is Some && lookup(before, nk->0) is Some ==> pairs_view(out@) == before);
            assert(nk is Some && lookup(before, nk->0) is None ==> pairs_view(out@) == before.push((nk->0, rv[i - 1].1)));
            assert forall|k: Seq<char>| #[trigger] lookup(pairs_view(out@), k) == last_meaning(
                suffix,
                k,
            ) by {
                let rest = rv.subrange(i as int, rv.len() as int);
                assert(last_meaning(suffix, k) == match last_meaning(rest, k) {
                    Some(m) => Some(m),
                    None => if normalize_spec(rv[i - 1].0) == Some(k) {
                        Some(rv[i - 1].1)
                    } else {
                        None
                    },
                });
                assert(lookup(before, k) == last_meaning(rest, k));
                if nk is Some && lookup(before, nk->0) is None {
                    assert(before.push((nk->0, rv[i - 1].1)).drop_last() =~= before);
                    if k == nk->0 {
                        assert(lookup(pairs_view(out@), k) == Some(rv[i - 1].1));
                    } else {
                        assert(lookup(pairs_view(out@), k) == lookup(before, k));
                    }
                } else if nk is Some && k == nk->0 {
                    assert(lookup(pairs_view(out@), k) == lookup(before, k));
                }
            }
            i = i - 1;
        }
        assert(rv.subrange(0, rv.len() as int) =~= rv);
        TagIndex { entries: out }
    }

    /// The meaning stored under the normal form of `tag`.
    pub fn get(&self, tag: &str) -> (r: Option<&str>)
        ensures
            match normalize_spec(tag@) {
                None => r is None,
                Some(k) => match self.meaning(k) {
                    None => r is None,
                    Some(m) => r matches Some(s) && s@ == m,
                },
            },
    {
        match normalize_tag_key(tag) {
            None => None,
            Some(key) => match find_entry(&self.entries, &key) {
                None => None,
                Some(i) => Some(self.entries[i].1.as_str()),
            },
        }
    }

    /// The (key, meaning) entries, each key once.
    pub fn iter(&self) -> (r: Vec<(String, String)>)
        ensures
            pairs_view(r@) == self.view_entries(),
    {
        let mut out: Vec<(String, String)> = Vec::new();
        let mut i: usize = 0;
        while i < self.entries.len()
            invariant
                i <= self.entries@.len(),
                out@.len() == i,
                forall|j: int| 0 <= j < i ==> (#[trigger] out@[j]).0@ == self.entries@[j].0@
                    && out@[j].1@ == self.entries@[j].1@,
            decreases self.entries@.len() - i,
        {
            let k = self.entries[i].0.clone();
            let m = self.entries[i].1.clone();
            out.push((k, m));
            i = i + 1;
        }
        assert(pairs_view(out@) =~= pairs_view(self.entries@));
        out
    }

    /// Whether no key has a meaning.
    pub fn is_empty(&self) -> (r: bool)
        ensures
            r == (forall|k: Seq<char>| #[trigger] self.meaning(k) is None),
    {
        if self.entries.len() == 0 {
            true
        } else {
            let ghost e = self.view_entries();
            assert(self.meaning(e.last().0) is Some);
            false
        }
    }

    /// Adds the entries of `other` whose keys this index lacks.
    fn absorb(&mut self, other: &TagIndex)
        requires
            old(self).wf(),
            other.wf(),
        ensures
            final(self).wf(),
            forall|k: Seq<char>| #[trigger] final(self).meaning(k) == match old(self).meaning(k) {
                Some(m) => Some(m),
                None => other.meaning(k),
            },
    {
        let ghost ov = other.view_entries();
        let mut i: usize = other.entries.len();
        assert(ov.subrange(0, ov.len() as int) =~= ov);
        while i > 0
            invariant
                i <= other.entries@.len(),
                ov == other.view_entries(),
                other.wf(),
                self.wf(),
                forall|k: Seq<char>| #[trigger] self.meaning(k) == match old(self).meaning(k) {
                    Some(m) => Some(m),
                    None => match lookup(ov, k) {
                        Some(m) => if lookup(ov.subrange(0, i as int), k) is None { Some(m) } else { None },
                        None => None,
                    },
                },
            decreases i,
        {
            let ghost before = self.view_entries();
            let ghost snap = *self;
            let ghost key = ov[i - 1].0;
            proof {
                assert forall|j: int| 0 <= j < i - 1 implies #[trigger] ov.subrange(0, i - 1)[j].0 != key by {
                    assert(ov.subrange(0, i - 1)[j] == ov[j]);
                }
                lemma_lookup_absent(ov.subrange(0, i - 1), key);
                lemma_lookup_at(ov, key, i - 1);
            }
            assert(ov.subrange(0, i as int).drop_last() =~= ov.subrange(0, i - 1));
            if find_entry(&self.entries, &other.entries[i - 1].0).is_none() {
                proof {
                    lemma_lookup_none(before, key);
                }
                self.entries.push((other.entries[i - 1].0.clone(), other.entries[i - 1].1.clone()));
                assert(self.view_entries() =~= before.push((key, ov[i - 1].1)));
                assert(before.push((key, ov[i - 1].1)).drop_last() =~= before);
            }
            assert forall|k: Seq<char>| #[trigger] self.meaning(k) == match old(self).meaning(k) {
                Some(m) => Some(m),
                None => match lookup(ov, k) {
                    Some(m) => if lookup(ov.subrange(0, i - 1), k) is None { Some(m) } else { None },
                    None => None,
                },
            } by {
                assert(snap.meaning(k) == lookup(before, k));
                assert(snap.meaning(k) == match old(self).meaning(k) {
                    Some(m) => Some(m),
                    None => match lookup(ov, k) {
                        Some(m) => if lookup(ov.subrange(0, i as int), k) is None { Some(m) } else { None },
                        None => None,
                    },
                });
                if k == key {
                    assert(lookup(ov.subrange(0, i as int), k) == Some(ov[i - 1].1));
                } else {
                    assert(lookup(ov.subrange(0, i as int), k) == lookup(ov.subrange(0, i - 1), k));
                }
            }
            i = i - 1;
        }
        assert(ov.subrange(0, 0) =~= Seq::<(Seq<char>, Seq<char>)>::empty());
    }
}

/// Required meanings by normalized tag.
#[derive(Clone, Debug)]
pub struct MeaningDb {
    tag_index: TagIndex,
}

impl MeaningDb {
    /// The meaning stored under the normalized key `k`.
    pub closed spec fn meaning(self, k: Seq<char>) -> Option<Seq<char>> {
        self.tag_index.meaning(k)
    }

    /// Each normalized tag is stored once.
    pub closed spec fn wf(self) -> bool {
        self.tag_index.wf()
    }

    /// A database of the given (tag, meaning) pairs; of pairs whose tags
    /// normalize alike, the later wins.
    pub fn new(raw_meanings: Vec<(String, String)>) -> (r: MeaningDb)
        ensures
            r.wf(),
            forall|k: Seq<char>| #[trigger] r.meaning(k) == last_meaning(pairs_view(raw_meanings@), k),
    {
        MeaningDb { tag_index: TagIndex::from_map(raw_meanings) }
    }

    /// Adds (tag, meaning) pairs; they win over what is already there.
    pub fn merge(&mut self, raw_meanings: Vec<(String, String)>)
        requires
            old(self).wf(),
        ensures
            final(self).wf(),
            forall|k: Seq<char>| #[trigger] final(self).meaning(k) == match last_meaning(
                pairs_view(raw_meanings@),
                k,
            ) {
                Some(m) => Some(m),
                None => old(self).meaning(k),
            },
    {
        let mut merged = TagIndex::from_map(raw_meanings);
        merged.absorb(&self.tag_index);
        self.tag_index = merged;
    }

    /// The meaning required for `tag`, looked up under its normal form.
    pub fn meaning_for(&self, tag: &str) -> (r: Option<&str>)
        ensures
            match normalize_spec(tag@) {
                None => r is None,
                Some(k) => match self.meaning(k) {
                    None => r is None,
                    Some(m) => r matches Some(s) && s@ == m,
                },
            },
    {
        self.tag_index.get(tag)
    }

    /// Whether no tag has a meaning.
    pub fn is_empty(&self) -> (r: bool)
        ensures
            r == (forall|k: Seq<char>| #[trigger] self.meaning(k) is None),
    {
        let r = self.tag_index.is_empty();
        proof {
            if r {
                assert forall|k: Seq<char>| #[trigger] self.meaning(k) is None by {
                    assert(self.tag_index.meaning(k) is None);
                }
            } else {
                let k0 = choose|k: Seq<char>| !(self.tag_index.meaning(k) is None);
                assert(self.meaning(k0) is Some);
            }
        }
        r
    }
}

/// A fragment that met its tag's required meaning.
#[derive(Clone, Debug)]
pub struct LightweightHit {
    pub tag: String,
    pub required: String,
    pub mode: MeaningMatchMode,
}

/// The required meaning for a tag, looked up under its normal form.
pub open spec fn db_meaning(db: MeaningDb, tag: Seq<char>) -> Option<Seq<char>> {
    match normalize_spec(tag) {
        None => None,
        Some(k) => db.meaning(k),
    }
}

/// The pairs of an optional source; none when it is absent.
pub open spec fn optional_pairs(v: Option<Vec<(String, String)>>) -> Seq<(Seq<char>, Seq<char>)> {
    match v {
        Some(p) => pairs_view(p@),
        None => Seq::empty(),
    }
}

/// The meaning of key `k` from two sources of (tag, meaning) pairs, the
/// later source winning.
pub open spec fn later_wins(
    earlier: Seq<(Seq<char>, Seq<char>)>,
    later: Seq<(Seq<char>, Seq<char>)>,
    k: Seq<char>,
) -> Option<Seq<char>> {
    match last_meaning(later, k) {
        Some(m) => Some(m),
        None => last_meaning(earlier, k),
    }
}

/// The fast-path verdict on a tag and payload: a hit (normalized tag,
/// required meaning, mode) when the tag has a required meaning and the
/// payload meets it under the tag's match mode.
pub open spec fn hit_spec(db: MeaningDb, tag: Seq<char>, payload: Seq<char>) -> Option<
    (Seq<char>, Seq<char>, MeaningMatchMode),
> {
    match normalize_spec(tag) {
        None => None,
        Some(n) => match db_meaning(db, n) {
            None => None,
            Some(req) => if matches_spec(mode_for(n), req, payload) {
                Some((n, req, mode_for(n)))
            } else {
                None
            },
        },
    }
}

/// A fragment split into tag and payload: at the first tab, else at the
/// first space, else all tag; both parts trimmed.
pub open spec fn split_spec(line: Seq<char>) -> (Seq<char>, Seq<char>) {
    match find_from(line, '\t', 0) {
        Some(i) => (trim(line.subrange(0, i)), trim(line.subrange(i + 1, line.len() as int))),
        None => match find_from(line, ' ', 0) {
            Some(i) => (trim(line.subrange(0, i)), trim(line.subrange(i + 1, line.len() as int))),
            None => (trim(line), Seq::empty()),
        },
    }
}

/// Splits a fragment into tag and payload: at the first tab, else at the
/// first space, else the whole fragment is the tag; both are trimmed.
pub fn split_tag_payload(line: &str) -> (r: (String, String))
    ensures
        r.0@ == split_spec(line@).0,
        r.1@ == split_spec(line@).1,
{
    let v = chars_of(line);
    assert(v@.subrange(0, v@.len() as int) =~= v@);
    let at = match find_char(&v, '\t', 0, v.len()) {
        Some(i) => Some(i),
        None => find_char(&v, ' ', 0, v.len()),
    };
    match at {
        Some(i) => {
            let tag = trim_chars(&slice_of(&v, 0, i));
            let payload = trim_chars(&slice_of(&v, i + 1, v.len()));
            (string_of(tag.as_slice()), string_of(payload.as_slice()))
        },
        None => (string_of(trim_chars(&v).as_slice()), string_of(Vec::<char>::new().as_slice())),
    }
}

/// The fast path: checks tagged fragments against a meaning database.
#[derive(Clone, Debug)]
pub struct LightweightVerifier {
    meaning_db: MeaningDb,
}

impl LightweightVerifier {
    /// The meanings the check goes by.
    pub closed spec fn db(self) -> MeaningDb {
        self.meaning_db
    }

    /// A fast path over these meanings.
    pub fn new(meaning_db: MeaningDb) -> (r: LightweightVerifier)
        ensures
            r.db() == meaning_db,
    {
        LightweightVerifier { meaning_db }
    }

    /// A verifier over the meanings of a file (if any) merged with those of
    /// the environment, which win; `None` when no tag has a meaning.
    pub fn from_sources(
        file_meanings: Option<Vec<(String, String)>>,
        env_pairs: Vec<(String, String)>,
    ) -> (r: Option<LightweightVerifier>)
        ensures
            r is None <==> forall|k: Seq<char>| #[trigger] later_wins(
                optional_pairs(file_meanings),
                pairs_view(env_pairs@),
                k,
            ) is None,
            r matches Some(v) ==> forall|k: Seq<char>| #[trigger] v.db().meaning(k) == later_wins(
                optional_pairs(file_meanings),
                pairs_view(env_pairs@),
                k,
            ),
    {
        let ghost file = optional_pairs(file_meanings);
        let mut db = match file_meanings {
            Some(v) => MeaningDb::new(v),
            None => {
                let e: Vec<(String, String)> = Vec::new();
                assert(pairs_view(e@) =~= file);
                MeaningDb::new(e)
            },
        };
        assert(forall|k: Seq<char>| #[trigger] db.meaning(k) == last_meaning(file, k));
        let ghost before = db;
        let ghost env = pairs_view(env_pairs@);
        db.merge(env_pairs);
        assert forall|k: Seq<char>| #[trigger] db.meaning(k) == later_wins(file, env, k) by {
            assert(before.meaning(k) == last_meaning(file, k));
        }
        if db.is_empty() {
            assert forall|k: Seq<char>| #[trigger] later_wins(file, env, k) is None by {
                assert(db.meaning(k) is None);
            }
            None
        } else {
            proof {
                let k0 = choose|k: Seq<char>| !(db.meaning(k) is None);
                assert(later_wins(file, env, k0) is Some);
            }
            Some(LightweightVerifier::new(db))
        }
    }

    /// The fast-path verdict on a tag and a payload.
    pub fn verify_tag_payload(&self, tag: &str, payload: &str) -> (r: Option<LightweightHit>)
        ensures
            match hit_spec(self.db(), tag@, payload@) {
                None => r is None,
                Some(h) => r matches Some(hit) && hit.tag@ == h.0 && hit.required@ == h.1
                    && hit.mode == h.2,
            },
    {
        hit_for(&self.meaning_db, tag, payload)
    }
}

/// The fast-path verdict of `db` on a tag and a payload.
fn hit_for(db: &MeaningDb, tag: &str, payload: &str) -> (r: Option<LightweightHit>)
    ensures
        match hit_spec(*db, tag@, payload@) {
            None => r is None,
            Some(h) => r matches Some(hit) && hit.tag@ == h.0 && hit.required@ == h.1 && hit.mode
                == h.2,
        },
{
        let normalized = match normalize_tag_key(tag) {
            None => return None,
            Some(n) => n,
        };
        let required = match db.meaning_for(normalized.as_str()) {
            None => return None,
            Some(m) => m,
        };
        let mode = match_mode_for_tag(normalized.as_str());
        if meaning_matches(mode, required, payload) {
            Some(LightweightHit { tag: normalized, required: required.to_owned(), mode })
        } else {
            None
        }
}

impl LightweightVerifier {
    /// The fast-path verdict on a fragment `tag<TAB>payload` (or
    /// `tag<SPACE>payload`).
    pub fn verify_fragment(&self, fragment: &str) -> (r: Option<LightweightHit>)
        ensures
            match hit_spec(self.db(), split_spec(fragment@).0, split_spec(fragment@).1) {
                None => r is None,
                Some(h) => r matches Some(hit) && hit.tag@ == h.0 && hit.required@ == h.1
                    && hit.mode == h.2,
            },
    {
        let (tag, payload) = split_tag_payload(fragment);
        self.verify_tag_payload(tag.as_str(), payload.as_str())
    }
}

/// The check of the line server: a tagged payload passes when its tag
/// has no required meaning, or when the payload meets it.
#[derive(Clone, Debug)]
pub struct Verifier {
    meaning_db: MeaningDb,
}

impl Verifier {
    /// The meanings the check goes by.
    pub closed spec fn db(self) -> MeaningDb {
        self.meaning_db
    }

    /// A check over these meanings.
    pub fn new(meaning_db: MeaningDb) -> (r: Verifier)
        ensures
            r.db() == meaning_db,
    {
        Verifier { meaning_db }
    }

    /// Whether the payload may pass for this tag.
    pub fn verify_tag_payload(&self, tag: &str, payload: &str) -> (r: bool)
        ensures
            r == (db_meaning(self.db(), tag@) is None || hit_spec(self.db(), tag@, payload@) is Some),
    {
        self.meaning_db.meaning_for(tag).is_none() || hit_for(&self.meaning_db, tag, payload).is_some()
    }
}

/// A `tag=meaning` item: both sides trimmed, neither empty.
pub open spec fn pair_of(item: Seq<char>) -> Option<(Seq<char>, Seq<char>)> {
    match find_from(item, '=', 0) {
        None => None,
        Some(p) => {
            let t = trim(item.subrange(0, p));
            let m = trim(item.subrange(p + 1, item.len() as int));
            if t.len() > 0 && m.len() > 0 {
                Some((t, m))
            } else {
                None
            }
        },
    }
}

/// A line of a meaning file: blank lines and `#` comments hold nothing.
pub open spec fn file_line(line: Seq<char>) -> Option<(Seq<char>, Seq<char>)> {
    let l = trim(line);
    if l.len() == 0 || l[0] == '#' {
        None
    } else {
        pair_of(l)
    }
}

/// The pair a piece holds, as a sequence of none or one.
pub open spec fn piece_pairs(piece: Seq<char>, file: bool) -> Seq<(Seq<char>, Seq<char>)> {
    match if file {
        file_line(piece)
    } else {
        pair_of(piece)
    } {
        Some(p) => seq![p],
        None => Seq::empty(),
    }
}

/// The pairs of `s` from `start` on, where pieces are separated by `sep`.
pub open spec fn pairs_from(s: Seq<char>, sep: char, file: bool, start: int) -> Seq<
    (Seq<char>, Seq<char>),
>
    decreases s.len() - start,
{
    if start < 0 || start > s.len() {
        Seq::empty()
    } else {
        match find_from(s, sep, start) {
            None => piece_pairs(s.subrange(start, s.len() as int), file),
            Some(i) => if start <= i < s.len() {
                piece_pairs(s.subrange(start, i), file) + pairs_from(s, sep, file, i + 1)
            } else {
                Seq::empty()
            },
        }
    }
}

fn pair_of_exec(item: &Vec<char>) -> (r: Option<(String, String)>)
    ensures
        match pair_of(item@) {
            None => r is None,
            Some(p) => r matches Some(q) && q.0@ == p.0 && q.1@ == p.1,
        },
{
    assert(item@.subrange(0, item@.len() as int) =~= item@);
    match find_char(item, '=', 0, item.len()) {
        None => None,
        Some(p) => {
            let t = trim_chars(&slice_of(item, 0, p));
            let m = trim_chars(&slice_of(item, p + 1, item.len()));
            if t.len() > 0 && m.len() > 0 {
                Some((string_of(t.as_slice()), string_of(m.as_slice())))
            } else {
                None
            }
        },
    }
}

fn piece_exec(piece: &Vec<char>, file: bool) -> (r: Option<(String, String)>)
    ensures
        match (if file {
            file_line(piece@)
        } else {
            pair_of(piece@)
        }) {
            None => r is None,
            Some(p) => r matches Some(q) && q.0@ == p.0 && q.1@ == p.1,
        },
{
    if file {
        let l = trim_chars(piece);
        if l.len() == 0 || l[0] == '#' {
            None
        } else {
            pair_of_exec(&l)
        }
    } else {
        pair_of_exec(piece)
    }
}

fn pairs_exec(v: &Vec<char>, sep: char, file: bool) -> (r: Vec<(String, String)>)
    ensures
        pairs_view(r@) == pairs_from(v@, sep, file, 0),
{
    let mut out: Vec<(String, String)> = Vec::new();
    let mut start: usize = 0;
    assert(v@.subrange(0, v@.len() as int) =~= v@);
    assert(pairs_view(out@) + pairs_from(v@, sep, file, 0) =~= pairs_from(v@, sep, file, 0));
    loop
        invariant
            start <= v@.len(),
            pairs_from(v@, sep, file, 0) == pairs_view(out@) + pairs_from(v@, sep, file, start as int),
        decreases v@.len() - start,
    {
        let ghost before = pairs_view(out@);
        assert(v@.subrange(0, v@.len() as int) =~= v@);
        match find_char(v, sep, start, v.len()) {
            None => {
                let piece = slice_of(v, start, v.len());
                match piece_exec(&piece, file) {
                    Some(p) => {
                        out.push(p);
                    },
                    None => {},
                }
                assert(pairs_view(out@) =~= before + piece_pairs(piece@, file));
                assert(pairs_from(v@, sep, file, start as int) == piece_pairs(piece@, file));
                return out;
            },
            Some(i) => {
                let piece = slice_of(v, start, i);
                match piece_exec(&piece, file) {
                    Some(p) => {
                        out.push(p);
                    },
                    None => {},
                }
                assert(pairs_view(out@) =~= before + piece_pairs(piece@, file));
                assert(pairs_from(v@, sep, file, start as int) == piece_pairs(piece@, file)
                    + pairs_from(v@, sep, file, i + 1));
                assert(before + (piece_pairs(piece@, file) + pairs_from(v@, sep, file, i + 1))
                    =~= pairs_view(out@) + pairs_from(v@, sep, file, i + 1));
                start = i + 1;
            },
        }
    }
}

/// The (tag, meaning) pairs of a meaning file: one `tag = meaning` per
/// line, blank lines and `#` comments skipped, pairs with an empty side
/// dropped.
pub fn parse_meaning_file(content: &str) -> (r: Vec<(String, String)>)
    ensures
        pairs_view(r@) == pairs_from(content@, '\n', true, 0),
{
    pairs_exec(&chars_of(content), '\n', true)
}

/// The (tag, meaning) pairs of `tag=meaning;tag2=meaning2`, pairs with
/// an empty side dropped.
pub fn parse_meaning_pairs(raw: &str) -> (r: Vec<(String, String)>)
    ensures
        pairs_view(r@) == pairs_from(raw@, ';', false, 0),
{
    pairs_exec(&chars_of(raw), ';', false)
}

/// A character that a normalized tag may hold.
pub open spec fn key_char(c: char) -> bool {
    is_ascii_alnum(c) || c == '-'
}

/// Every character may stand in a normalized tag.
pub open spec fn key_chars(s: Seq<char>) -> bool {
    forall|k: int| 0 <= k < s.len() ==> key_char(#[trigger] s[k])
}

proof fn lemma_collapse_chars(s: Seq<char>)
    ensures
        key_chars(collapse(s).0),
    decreases s.len(),
{
    if s.len() > 0 {
        lemma_collapse_chars(s.drop_last());
        let p = collapse(s.drop_last()).0;
        assert forall|k: int| 0 <= k < collapse(s).0.len() implies key_char(#[trigger] collapse(s).0[k]) by {
            if k < p.len() {
                assert(key_char(p[k]));
            }
        }
    }
}

proof fn lemma_strip_start_chars(s: Seq<char>)
    requires
        key_chars(s),
    ensures
        key_chars(strip_start_dash(s)),
    decreases s.len(),
{
    if s.len() > 0 && s[0] == '-' {
        assert(key_chars(s.drop_first())) by {
            assert forall|k: int| 0 <= k < s.drop_first().len() implies key_char(#[trigger] s.drop_first()[k]) by {
                assert(s.drop_first()[k] == s[k + 1]);
            }
        }
        lemma_strip_start_chars(s.drop_first());
    }
}

proof fn lemma_strip_end_chars(s: Seq<char>)
    requires
        key_chars(s),
    ensures
        key_chars(strip_end_dash(s)),
    decreases s.len(),
{
    if s.len() > 0 && s.last() == '-' {
        assert(key_chars(s.drop_last())) by {
            assert forall|k: int| 0 <= k < s.drop_last().len() implies key_char(#[trigger] s.drop_last()[k]) by {
                assert(s.drop_last()[k] == s[k]);
            }
        }
        lemma_strip_end_chars(s.drop_last());
    }
}

proof fn lemma_strip_chars(s: Seq<char>)
    requires
        key_chars(s),
    ensures
        key_chars(strip_dashes(s)),
{
    lemma_strip_start_chars(s);
    lemma_strip_end_chars(strip_start_dash(s));
}

/// A normalized tag holds only ASCII letters, digits and `-`.
pub proof fn lemma_normalized_chars(input: Seq<char>)
    requires
        normalize_spec(input) is Some,
    ensures
        key_chars(normalize_spec(input)->0),
{
    let c = collapse(lowered(input)).0;
    lemma_collapse_chars(lowered(input));
    lemma_strip_chars(c);
    let n = strip_dashes(c);
    let f = first_chars(n, TAG_KEY_MAX_LEN as int);
    assert(key_chars(f)) by {
        assert forall|k: int| 0 <= k < f.len() implies key_char(#[trigger] f[k]) by {
            assert(f[k] == n[k]);
        }
    }
    lemma_strip_chars(f);
}

/// Fast-path correctness: with a meaning database that holds just
/// `{tag: meaning}`, for a tag in normal form, the fragment
/// `tag<TAB>payload` is a hit exactly when the tag's match policy accepts
/// the payload (as the fragment carries it, trimmed).
pub proof fn lemma_fast_path(
    v: LightweightVerifier,
    tag: Seq<char>,
    meaning: Seq<char>,
    payload: Seq<char>,
)
    requires
        normalize_spec(tag) == Some(tag),
        forall|k: Seq<char>| #[trigger] v.db().meaning(k) == last_meaning(seq![(tag, meaning)], k),
    ensures
        split_spec(tag + seq!['\t'] + payload) == (tag, trim(payload)),
        hit_spec(v.db(), tag, trim(payload)) is Some <==> matches_spec(mode_for(tag), meaning, trim(payload)),
{
    let frag = tag + seq!['\t'] + payload;
    lemma_normalized_chars(tag);
    assert forall|k: int| 0 <= k < tag.len() implies frag[k] != '\t' by {
        assert(key_char(tag[k]));
    }
    lemma_find_from(frag, '\t', 0, tag.len() as int);
    assert(frag.subrange(0, tag.len() as int) =~= tag);
    assert(frag.subrange(tag.len() as int + 1, frag.len() as int) =~= payload);
    assert(tag.len() > 0);
    assert(key_char(tag[0]));
    assert(key_char(tag.last()));
    assert(!is_ws(tag[0]));
    assert(!is_ws(tag.last()));
    assert(crate::text::trim_start(tag) == tag);
    assert(trim(tag) == tag);
    let s1 = seq![(tag, meaning)];
    assert(s1.drop_first() =~= Seq::<(Seq<char>, Seq<char>)>::empty());
    assert(last_meaning(s1.drop_first(), tag) is None);
    assert(last_meaning(s1, tag) == Some(meaning));
}

} // verus!
