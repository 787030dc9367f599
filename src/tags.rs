use vstd::prelude::*;
use crate::text::{chars_of, string_of, trim, trim_str};

verus! {

/// Lexicographic order of character sequences by code point; on UTF-8
/// strings it is the order of `String`'s `Ord`.
pub open spec fn lex_lt(a: Seq<char>, b: Seq<char>) -> bool
    decreases a.len(),
{
    if a.len() == 0 {
        b.len() > 0
    } else if b.len() == 0 {
        false
    } else if a[0] != b[0] {
        a[0] < b[0]
    } else {
        lex_lt(a.drop_first(), b.drop_first())
    }
}

pub(crate) proof fn lemma_lex_irreflexive(a: Seq<char>)
    ensures
        !lex_lt(a, a),
    decreases a.len(),
{
    if a.len() > 0 {
        lemma_lex_irreflexive(a.drop_first());
    }
}

pub(crate) proof fn lemma_lex_transitive(a: Seq<char>, b: Seq<char>, c: Seq<char>)
    requires
        lex_lt(a, b),
        lex_lt(b, c),
    ensures
        lex_lt(a, c),
    decreases a.len(),
{
    if a.len() > 0 && b.len() > 0 && c.len() > 0 && a[0] == b[0] && b[0] == c[0] {
        lemma_lex_transitive(a.drop_first(), b.drop_first(), c.drop_first());
    }
}

pub(crate) proof fn lemma_lex_total(a: Seq<char>, b: Seq<char>)
    ensures
        a == b || lex_lt(a, b) || lex_lt(b, a),
    decreases a.len(),
{
    if a.len() > 0 && b.len() > 0 {
        if a[0] == b[0] {
            lemma_lex_total(a.drop_first(), b.drop_first());
            if a.drop_first() == b.drop_first() {
                assert(a =~= seq![a[0]] + a.drop_first());
                assert(b =~= seq![b[0]] + b.drop_first());
            }
        } else {
            assert(a[0] < b[0] || b[0] < a[0]);
        }
    } else if a.len() == 0 && b.len() == 0 {
        assert(a =~= b);
    }
}

pub(crate) proof fn lemma_lex_asymmetric(a: Seq<char>, b: Seq<char>)
    requires
        lex_lt(a, b),
    ensures
        !lex_lt(b, a),
{
    if lex_lt(b, a) {
        lemma_lex_transitive(a, b, a);
        lemma_lex_irreflexive(a);
    }
}

/// Strictly increasing in `lex_lt`: sorted, no element twice.
pub open spec fn strictly_sorted(s: Seq<Seq<char>>) -> bool {
    forall|i: int, j: int| 0 <= i < j < s.len() ==> lex_lt(#[trigger] s[i], #[trigger] s[j])
}

/// `x` put in its place in the sorted `s`, unless it is there already.
pub open spec fn insert_sorted(s: Seq<Seq<char>>, x: Seq<char>) -> Seq<Seq<char>>
    decreases s.len(),
{
    if s.len() == 0 {
        seq![x]
    } else if s[0] == x {
        s
    } else if lex_lt(x, s[0]) {
        seq![x] + s
    } else {
        seq![s[0]] + insert_sorted(s.drop_first(), x)
    }
}

/// What a tag becomes in canonical form: trimmed and, when `lower`,
/// lowercased.
pub open spec fn tag_norm(t: Seq<char>, lower: bool) -> Seq<char> {
    if lower {
        lower_of(trim(t))
    } else {
        trim(t)
    }
}

/// The canonical tags: each normalized, empties dropped, sorted, each
/// once.
pub open spec fn canon(tags: Seq<Seq<char>>, lower: bool) -> Seq<Seq<char>>
    decreases tags.len(),
{
    if tags.len() == 0 {
        Seq::empty()
    } else {
        let c = canon(tags.drop_last(), lower);
        let n = tag_norm(tags.last(), lower);
        if n.len() == 0 {
            c
        } else {
            insert_sorted(c, n)
        }
    }
}

/// The tags joined with `|`.
pub open spec fn join_bar(s: Seq<Seq<char>>) -> Seq<char>
    decreases s.len(),
{
    if s.len() == 0 {
        Seq::empty()
    } else if s.len() == 1 {
        s[0]
    } else {
        join_bar(s.drop_last()) + seq!['|'] + s.last()
    }
}

/// What `str::to_lowercase` yields for `s`.
pub uninterp spec fn lower_of(s: Seq<char>) -> Seq<char>;

/// Relies on `str::to_lowercase`: the lowercase form of `s`.
#[verifier::external_body]
fn lowercase(s: &str) -> (r: String)
    ensures
        r@ == lower_of(s@),
{
    s.to_lowercase()
}

proof fn lemma_insert_prefix(s: Seq<Seq<char>>, x: Seq<char>, j: int)
    requires
        0 <= j <= s.len(),
        forall|k: int| 0 <= k < j ==> lex_lt(#[trigger] s[k], x),
    ensures
        insert_sorted(s, x) == s.subrange(0, j) + insert_sorted(s.subrange(j, s.len() as int), x),
    decreases j,
{
    if j == 0 {
        assert(s.subrange(0, 0) + insert_sorted(s.subrange(0, s.len() as int), x) =~= insert_sorted(s, x)) by {
            assert(s.subrange(0, s.len() as int) =~= s);
        }
    } else {
        let d = s.drop_first();
        assert forall|k: int| 0 <= k < j - 1 implies lex_lt(#[trigger] d[k], x) by {
            assert(d[k] == s[k + 1]);
        }
        lemma_insert_prefix(d, x, j - 1);
        assert(lex_lt(s[0], x));
        lemma_lex_irreflexive(x);
        lemma_lex_asymmetric(s[0], x);
        assert(d.subrange(j - 1, d.len() as int) =~= s.subrange(j, s.len() as int));
        assert(seq![s[0]] + (d.subrange(0, j - 1) + insert_sorted(s.subrange(j, s.len() as int), x))
            =~= s.subrange(0, j) + insert_sorted(s.subrange(j, s.len() as int), x));
    }
}

/// Whether `a` comes before `b` in `lex_lt`.
pub(crate) fn lex_less(a: &Vec<char>, b: &Vec<char>) -> (r: bool)
    ensures
        r == lex_lt(a@, b@),
{
    let mut i: usize = 0;
    assert(a@.subrange(0, a@.len() as int) =~= a@);
    assert(b@.subrange(0, b@.len() as int) =~= b@);
    while i < a.len() && i < b.len() && a[i] == b[i]
        invariant
            i <= a@.len(),
            i <= b@.len(),
            lex_lt(a@, b@) == lex_lt(a@.subrange(i as int, a@.len() as int), b@.subrange(i as int, b@.len() as int)),
        decreases a@.len() - i,
    {
        let ghost sa = a@.subrange(i as int, a@.len() as int);
        let ghost sb = b@.subrange(i as int, b@.len() as int);
        assert(sa.drop_first() =~= a@.subrange(i + 1, a@.len() as int));
        assert(sb.drop_first() =~= b@.subrange(i + 1, b@.len() as int));
        i = i + 1;
    }
    let ghost sa = a@.subrange(i as int, a@.len() as int);
    let ghost sb = b@.subrange(i as int, b@.len() as int);
    proof {
        assert(a@.subrange(0, a@.len() as int) =~= a@);
        assert(b@.subrange(0, b@.len() as int) =~= b@);
    }
    if i == a.len() {
        i < b.len()
    } else if i == b.len() {
        false
    } else {
        assert(sa[0] == a@[i as int] && sb[0] == b@[i as int]);
        a[i] < b[i]
    }
}

/// Puts `x` in its place in the sorted `out`, unless it is there.
fn insert_tag(out: &mut Vec<String>, x: String)
    ensures
        final(out)@.map_values(|s: String| s@) == insert_sorted(
            old(out)@.map_values(|s: String| s@),
            x@,
        ),
{
    let ghost sv = out@.map_values(|s: String| s@);
    let xv = chars_of(x.as_str());
    let mut j: usize = 0;
    while j < out.len() && lex_less(&chars_of(out[j].as_str()), &xv)
        invariant
            j <= out@.len(),
            sv == out@.map_values(|s: String| s@),
            forall|k: int| 0 <= k < j ==> lex_lt(#[trigger] sv[k], x@),
            xv@ == x@,
        decreases out@.len() - j,
    {
        assert(sv[j as int] == out@[j as int]@);
        j = j + 1;
    }
    proof {
        lemma_insert_prefix(sv, x@, j as int);
    }
    let ghost rest = sv.subrange(j as int, sv.len() as int);
    if j < out.len() && out[j] == x {
        assert(rest[0] == x@);
        assert(sv.subrange(0, j as int) + rest =~= sv);
        return;
    }
    proof {
        if rest.len() > 0 {
            lemma_lex_total(x@, rest[0]);
        }
    }
    out.insert(j, x);
    assert(out@.map_values(|s: String| s@) =~= sv.subrange(0, j as int) + insert_sorted(rest, x@));
}

/// An unordered set of short tags.
#[derive(Clone, Debug)]
pub struct TagBits {
    pub tags: Vec<String>,
}

/// The tags as character sequences.
pub open spec fn tags_view(t: Vec<String>) -> Seq<Seq<char>> {
    t@.map_values(|s: String| s@)
}

/// Non-empty entries of `s`, sorted, each once.
pub open spec fn sorted_unique(s: Seq<Seq<char>>) -> Seq<Seq<char>>
    decreases s.len(),
{
    if s.len() == 0 {
        Seq::empty()
    } else if s.last().len() == 0 {
        sorted_unique(s.drop_last())
    } else {
        insert_sorted(sorted_unique(s.drop_last()), s.last())
    }
}

/// The canonical tags are the normal forms of the tags, sorted, empties
/// dropped, each once.
pub proof fn lemma_canon_sorted_unique(tags: Seq<Seq<char>>, lower: bool)
    ensures
        canon(tags, lower) == sorted_unique(tags.map_values(|t: Seq<char>| tag_norm(t, lower))),
    decreases tags.len(),
{
    if tags.len() > 0 {
        lemma_canon_sorted_unique(tags.drop_last(), lower);
        assert(tags.map_values(|t: Seq<char>| tag_norm(t, lower)).drop_last() =~= tags.drop_last().map_values(
            |t: Seq<char>| tag_norm(t, lower),
        ));
    } else {
        assert(tags.map_values(|t: Seq<char>| tag_norm(t, lower)) =~= Seq::<Seq<char>>::empty());
    }
}

/// Tags already normalized, sorted, with empty ones dropped and each kept
/// once.
pub fn sort_unique_tags(tags: &Vec<String>) -> (r: Vec<String>)
    ensures
        tags_view(r) == sorted_unique(tags_view(*tags)),
{
    let mut out: Vec<String> = Vec::new();
    let mut i: usize = 0;
    assert(tags_view(*tags).subrange(0, 0) =~= Seq::<Seq<char>>::empty());
    assert(tags_view(out) =~= Seq::<Seq<char>>::empty());
    while i < tags.len()
        invariant
            i <= tags@.len(),
            tags_view(out) == sorted_unique(tags_view(*tags).subrange(0, i as int)),
        decreases tags@.len() - i,
    {
        let ghost pre = tags_view(*tags).subrange(0, i + 1);
        assert(pre.drop_last() =~= tags_view(*tags).subrange(0, i as int));
        assert(pre.last() == tags@[i as int]@);
        if !tags[i].as_str().is_empty() {
            insert_tag(&mut out, tags[i].clone());
        }
        i = i + 1;
    }
    assert(tags_view(*tags).subrange(0, i as int) =~= tags_view(*tags));
    out
}

/// The canonical form of `tags`: each normalized, empties dropped, sorted,
/// each once.
fn canonical_tags(tags: &Vec<String>, lower: bool) -> (r: Vec<String>)
    ensures
        tags_view(r) == canon(tags_view(*tags), lower),
{
    let mut norms: Vec<String> = Vec::new();
    let mut i: usize = 0;
    while i < tags.len()
        invariant
            i <= tags@.len(),
            norms@.len() == i,
            forall|j: int| 0 <= j < i ==> (#[trigger] norms@[j])@ == tag_norm(tags@[j]@, lower),
        decreases tags@.len() - i,
    {
        let trimmed = trim_str(tags[i].as_str());
        let n = if lower {
            lowercase(trimmed.as_str())
        } else {
            trimmed
        };
        norms.push(n);
        i = i + 1;
    }
    proof {
        lemma_canon_sorted_unique(tags_view(*tags), lower);
        assert(tags_view(norms) =~= tags_view(*tags).map_values(|t: Seq<char>| tag_norm(t, lower)));
    }
    sort_unique_tags(&norms)
}

/// The tags joined with `|`.
fn join_tags(tags: &Vec<String>) -> (r: String)
    ensures
        r@ == join_bar(tags_view(*tags)),
{
    let mut out: Vec<char> = Vec::new();
    let mut i: usize = 0;
    assert(tags_view(*tags).subrange(0, 0) =~= Seq::<Seq<char>>::empty());
    while i < tags.len()
        invariant
            i <= tags@.len(),
            out@ == join_bar(tags_view(*tags).subrange(0, i as int)),
        decreases tags@.len() - i,
    {
        let ghost pre = tags_view(*tags).subrange(0, i + 1);
        assert(pre.drop_last() =~= tags_view(*tags).subrange(0, i as int));
        let t = chars_of(tags[i].as_str());
        if i > 0 {
            out.push('|');
        }
        let mut k: usize = 0;
        let ghost start = out@;
        while k < t.len()
            invariant
                k <= t@.len(),
                out@ == start + t@.subrange(0, k as int),
            decreases t@.len() - k,
        {
            out.push(t[k]);
            assert(t@.subrange(0, k + 1) == t@.subrange(0, k as int).push(t@[k as int]));
            k = k + 1;
        }
        assert(t@.subrange(0, t@.len() as int) =~= t@);
        if i == 0 {
            assert(out@ =~= pre[0]);
        }
        i = i + 1;
    }
    assert(tags_view(*tags).subrange(0, i as int) =~= tags_view(*tags));
    string_of(out.as_slice())
}

impl TagBits {
    /// The canonical form: each tag trimmed and lowercased, empties dropped,
    /// sorted, duplicates removed.
    pub fn canonical(&self) -> (r: TagBits)
        ensures
            tags_view(r.tags) == canon(tags_view(self.tags), true),
    {
        TagBits { tags: canonical_tags(&self.tags, true) }
    }

    /// The index key: the canonical tags joined with `|`.
    pub fn to_key(&self) -> (r: String)
        ensures
            r@ == join_bar(canon(tags_view(self.tags), true)),
    {
        join_tags(&self.canonical().tags)
    }
}

/// Tags as an abstract generator hands them over: trimmed, empties
/// dropped, sorted, duplicates removed (case is kept).
pub fn normalize_tags(tags: Vec<String>) -> (r: TagBits)
    ensures
        tags_view(r.tags) == canon(tags_view(tags), false),
{
    TagBits { tags: canonical_tags(&tags, false) }
}

proof fn lemma_insert_sorted(s: Seq<Seq<char>>, x: Seq<char>)
    requires
        strictly_sorted(s),
    ensures
        strictly_sorted(insert_sorted(s, x)),
        forall|y: Seq<char>| #[trigger] insert_sorted(s, x).contains(y) <==> (s.contains(y) || y == x),
    decreases s.len(),
{
    let r = insert_sorted(s, x);
    if s.len() == 0 {
        assert(r[0] == x);
    } else if s[0] == x {
        assert(s.contains(x));
    } else if lex_lt(x, s[0]) {
        assert forall|i: int, j: int| 0 <= i < j < r.len() implies lex_lt(#[trigger] r[i], #[trigger] r[j]) by {
            if i == 0 {
                if j > 1 {
                    lemma_lex_transitive(x, s[0], s[j - 1]);
                }
            } else {
                assert(r[i] == s[i - 1] && r[j] == s[j - 1]);
            }
        }
        assert forall|y: Seq<char>| #[trigger] r.contains(y) <==> (s.contains(y) || y == x) by {
            if s.contains(y) {
                let k = choose|k: int| 0 <= k < s.len() && s[k] == y;
                assert(r[k + 1] == y);
            }
            if r.contains(y) {
                let k = choose|k: int| 0 <= k < r.len() && r[k] == y;
                if k > 0 {
                    assert(s[k - 1] == y);
                }
            }
            if y == x {
                assert(r[0] == x);
            }
        }
    } else {
        let d = s.drop_first();
        assert(strictly_sorted(d)) by {
            assert forall|i: int, j: int| 0 <= i < j < d.len() implies lex_lt(#[trigger] d[i], #[trigger] d[j]) by {
                assert(d[i] == s[i + 1] && d[j] == s[j + 1]);
            }
        }
        lemma_insert_sorted(d, x);
        let t = insert_sorted(d, x);
        lemma_lex_total(x, s[0]);
        assert forall|i: int, j: int| 0 <= i < j < r.len() implies lex_lt(#[trigger] r[i], #[trigger] r[j]) by {
            if i == 0 {
                assert(r[j] == t[j - 1]);
                assert(t.contains(t[j - 1]));
                if t[j - 1] != x {
                    let k = choose|k: int| 0 <= k < d.len() && d[k] == t[j - 1];
                    assert(s[k + 1] == t[j - 1]);
                }
            } else {
                assert(r[i] == t[i - 1] && r[j] == t[j - 1]);
            }
        }
        assert forall|y: Seq<char>| #[trigger] r.contains(y) <==> (s.contains(y) || y == x) by {
            if s.contains(y) {
                let k = choose|k: int| 0 <= k < s.len() && s[k] == y;
                if k == 0 {
                    assert(r[0] == y);
                } else {
                    assert(d[k - 1] == y);
                    assert(t.contains(y));
                    let m = choose|m: int| 0 <= m < t.len() && t[m] == y;
                    assert(r[m + 1] == y);
                }
            }
            if y == x {
                assert(t.contains(x));
                let m = choose|m: int| 0 <= m < t.len() && t[m] == x;
                assert(r[m + 1] == x);
            }
            if r.contains(y) {
                let k = choose|k: int| 0 <= k < r.len() && r[k] == y;
                if k == 0 {
                    assert(s[0] == y);
                } else {
                    assert(t[k - 1] == y);
                    assert(t.contains(y));
                    if d.contains(y) {
                        let m = choose|m: int| 0 <= m < d.len() && d[m] == y;
                        assert(s[m + 1] == y);
                    }
                }
            }
        }
    }
}

/// `y` is the normal form of some tag of `tags`, and not empty.
pub open spec fn normal_member(tags: Seq<Seq<char>>, lower: bool, y: Seq<char>) -> bool {
    y.len() > 0 && exists|i: int| 0 <= i < tags.len() && tag_norm(#[trigger] tags[i], lower) == y
}

/// The canonical tags are strictly sorted, and are exactly the non-empty
/// normal forms of the tags.
pub proof fn lemma_canon(tags: Seq<Seq<char>>, lower: bool)
    ensures
        strictly_sorted(canon(tags, lower)),
        forall|y: Seq<char>| #[trigger] canon(tags, lower).contains(y) <==> normal_member(tags, lower, y),
    decreases tags.len(),
{
    if tags.len() > 0 {
        let d = tags.drop_last();
        lemma_canon(d, lower);
        let c = canon(d, lower);
        let n = tag_norm(tags.last(), lower);
        if n.len() > 0 {
            lemma_insert_sorted(c, n);
        }
        assert forall|y: Seq<char>| #[trigger] canon(tags, lower).contains(y) <==> normal_member(tags, lower, y) by {
            if normal_member(d, lower, y) {
                let i = choose|i: int| 0 <= i < d.len() && tag_norm(#[trigger] d[i], lower) == y;
                assert(tags[i] == d[i]);
            }
            if normal_member(tags, lower, y) {
                let i = choose|i: int| 0 <= i < tags.len() && tag_norm(#[trigger] tags[i], lower) == y;
                if i < tags.len() - 1 {
                    assert(d[i] == tags[i]);
                    assert(normal_member(d, lower, y));
                }
            }
            if y == n && n.len() > 0 {
                assert(tag_norm(tags[tags.len() - 1], lower) == y);
            }
        }
    } else {
        assert forall|y: Seq<char>| #[trigger] canon(tags, lower).contains(y) <==> normal_member(tags, lower, y) by {
        }
    }
}

proof fn lemma_sorted_unique(a: Seq<Seq<char>>, b: Seq<Seq<char>>)
    requires
        strictly_sorted(a),
        strictly_sorted(b),
        forall|y: Seq<char>| #[trigger] a.contains(y) <==> b.contains(y),
    ensures
        a == b,
    decreases a.len(),
{
    if a.len() == 0 {
        if b.len() > 0 {
            assert(b.contains(b[0]));
            assert(a.contains(b[0]));
        }
        assert(a =~= b);
    } else {
        assert(a.contains(a[0]));
        let j = choose|j: int| 0 <= j < b.len() && b[j] == a[0];
        assert(b.contains(b[0]));
        assert(a.contains(b[0]));
        let i = choose|i: int| 0 <= i < a.len() && a[i] == b[0];
        if j > 0 {
            assert(lex_lt(b[0], b[j]));
            if i > 0 {
                assert(lex_lt(a[0], a[i]));
                lemma_lex_asymmetric(a[0], a[i]);
            } else {
                lemma_lex_irreflexive(a[0]);
            }
        }
        let da = a.drop_first();
        let db = b.drop_first();
        assert(strictly_sorted(da)) by {
            assert forall|p: int, q: int| 0 <= p < q < da.len() implies lex_lt(#[trigger] da[p], #[trigger] da[q]) by {
                assert(da[p] == a[p + 1] && da[q] == a[q + 1]);
            }
        }
        assert(strictly_sorted(db)) by {
            assert forall|p: int, q: int| 0 <= p < q < db.len() implies lex_lt(#[trigger] db[p], #[trigger] db[q]) by {
                assert(db[p] == b[p + 1] && db[q] == b[q + 1]);
            }
        }
        assert forall|y: Seq<char>| #[trigger] da.contains(y) <==> db.contains(y) by {
            if da.contains(y) {
                let k = choose|k: int| 0 <= k < da.len() && da[k] == y;
                assert(a[k + 1] == y);
                assert(a.contains(y));
                assert(b.contains(y));
                let m = choose|m: int| 0 <= m < b.len() && b[m] == y;
                if m == 0 {
                    assert(lex_lt(a[0], a[k + 1]));
                    lemma_lex_irreflexive(a[0]);
                }
                assert(db[m - 1] == y);
            }
            if db.contains(y) {
                let k = choose|k: int| 0 <= k < db.len() && db[k] == y;
                assert(b[k + 1] == y);
                assert(b.contains(y));
                assert(a.contains(y));
                let m = choose|m: int| 0 <= m < a.len() && a[m] == y;
                if m == 0 {
                    assert(lex_lt(b[0], b[k + 1]));
                    lemma_lex_irreflexive(b[0]);
                }
                assert(da[m - 1] == y);
            }
        }
        lemma_sorted_unique(da, db);
        assert(a =~= seq![a[0]] + da);
        assert(b =~= seq![b[0]] + db);
    }
}

/// Canonicalization is idempotent, and the key of the canonical form is
/// the key of the tags: `canonical(canonical(t)) == canonical(t)` and
/// `to_key(canonical(t)) == to_key(t)`. It holds whenever lowercasing
/// each non-empty trimmed, lowercased tag of `t` once more (after a trim)
/// leaves it as it is.
pub proof fn lemma_canonical_idempotent(tags: Seq<Seq<char>>)
    requires
        forall|i: int|
            0 <= i < tags.len() && tag_norm(#[trigger] tags[i], true).len() > 0 ==> tag_norm(
                tag_norm(tags[i], true),
                true,
            ) == tag_norm(tags[i], true),
    ensures
        canon(canon(tags, true), true) == canon(tags, true),
        join_bar(canon(canon(tags, true), true)) == join_bar(canon(tags, true)),
{
    let c = canon(tags, true);
    lemma_canon(tags, true);
    lemma_canon(c, true);
    assert forall|y: Seq<char>| #[trigger] canon(c, true).contains(y) <==> c.contains(y) by {
        if normal_member(c, true, y) {
            let j = choose|j: int| 0 <= j < c.len() && tag_norm(#[trigger] c[j], true) == y;
            assert(c.contains(c[j]));
            assert(normal_member(tags, true, c[j]));
            let i = choose|i: int| 0 <= i < tags.len() && tag_norm(#[trigger] tags[i], true) == c[j];
        }
        if c.contains(y) {
            let j = choose|j: int| 0 <= j < c.len() && c[j] == y;
            assert(normal_member(tags, true, y));
            let i = choose|i: int| 0 <= i < tags.len() && tag_norm(#[trigger] tags[i], true) == y;
            assert(tag_norm(c[j], true) == y);
        }
    }
    lemma_sorted_unique(canon(c, true), c);
}

/// The key does not depend on the order, the repetition or the
/// surrounding whitespace of tags, nor on their case insofar as
/// lowercasing makes them equal: two tag lists with the same non-empty
/// normal forms have the same canonical form and the same key.
pub proof fn lemma_key_permutation(p: Seq<Seq<char>>, q: Seq<Seq<char>>)
    requires
        forall|y: Seq<char>| normal_member(p, true, y) <==> normal_member(q, true, y),
    ensures
        canon(p, true) == canon(q, true),
        join_bar(canon(p, true)) == join_bar(canon(q, true)),
{
    lemma_canon(p, true);
    lemma_canon(q, true);
    assert forall|y: Seq<char>| #[trigger] canon(p, true).contains(y) <==> canon(q, true).contains(y) by {
        assert(normal_member(p, true, y) <==> normal_member(q, true, y));
    }
    lemma_sorted_unique(canon(p, true), canon(q, true));
}

} // verus!
