use vstd::prelude::*;
use crate::status::VerificationStatus;
use crate::models::Abstract;
use crate::tags::{canon, join_bar, tags_view};

verus! {

/// A selection from the index: one tag key, or all; and a minimum grade.
#[derive(Clone, Debug)]
pub struct SelectQuery {
    pub tag_key: Option<String>,
    pub min_verification: Option<VerificationStatus>,
}

impl Default for SelectQuery {
    /// Everything, whatever its grade.
    fn default() -> (r: SelectQuery)
        ensures
            r.tag_key is None,
            r.min_verification is None,
    {
        SelectQuery { tag_key: None, min_verification: None }
    }
}

/// The index key of an abstract: its tags' key.
pub open spec fn key_of(a: Abstract) -> Seq<char> {
    join_bar(canon(tags_view(a.tags.tags), true))
}

/// Whether an abstract is selected by a key (if any) and a minimum grade
/// (if any).
pub open spec fn selects(e: (Seq<char>, Abstract), key: Option<Seq<char>>, min: Option<VerificationStatus>) -> bool {
    (match key {
        Some(k) => e.0 == k,
        None => true,
    }) && (match min {
        Some(m) => e.1.verification.spec_rank() >= m.spec_rank(),
        None => true,
    })
}

/// The abstracts selected, in insertion order.
pub open spec fn selected(
    entries: Seq<(Seq<char>, Abstract)>,
    key: Option<Seq<char>>,
    min: Option<VerificationStatus>,
) -> Seq<Abstract>
    decreases entries.len(),
{
    if entries.len() == 0 {
        Seq::empty()
    } else if selects(entries.last(), key, min) {
        selected(entries.drop_last(), key, min).push(entries.last().1)
    } else {
        selected(entries.drop_last(), key, min)
    }
}

/// The keys of the entries, each once, in order of first insertion.
pub open spec fn keys_in_order(entries: Seq<(Seq<char>, Abstract)>) -> Seq<Seq<char>>
    decreases entries.len(),
{
    if entries.len() == 0 {
        Seq::empty()
    } else {
        let ks = keys_in_order(entries.drop_last());
        if ks.contains(entries.last().0) {
            ks
        } else {
            ks.push(entries.last().0)
        }
    }
}

/// The buckets of `keys` one after another, each in insertion order and
/// filtered by the minimum grade.
pub open spec fn buckets(
    entries: Seq<(Seq<char>, Abstract)>,
    keys: Seq<Seq<char>>,
    min: Option<VerificationStatus>,
) -> Seq<Abstract>
    decreases keys.len(),
{
    if keys.len() == 0 {
        Seq::empty()
    } else {
        buckets(entries, keys.drop_last(), min) + selected(entries, Some(keys.last()), min)
    }
}

/// Abstracts by tag key, in insertion order.
pub struct InMemoryIndex {
    entries: Vec<(String, Abstract)>,
}

impl InMemoryIndex {
    /// Every abstract inserted, with its key, in insertion order.
    pub closed spec fn view(self) -> Seq<(Seq<char>, Abstract)> {
        self.entries@.map_values(|e: (String, Abstract)| (e.0@, e.1))
    }

    /// An empty index.
    pub fn new() -> (r: InMemoryIndex)
        ensures
            r.view() == Seq::<(Seq<char>, Abstract)>::empty(),
    {
        InMemoryIndex { entries: Vec::new() }
    }

    /// Files an abstract under its tags' key.
    pub fn insert(&mut self, abstract_: Abstract)
        ensures
            final(self).view() == old(self).view().push((key_of(abstract_), abstract_)),
    {
        let key = abstract_.tags.to_key();
        self.entries.push((key, abstract_));
        assert(self.view() =~= old(self).view().push((key_of(abstract_), abstract_)));
    }

    /// The abstracts under `key` whose grade is at least `min` (when
    /// given), in insertion order.
    fn bucket(&self, key: &String, min: Option<VerificationStatus>) -> (r: Vec<&Abstract>)
        ensures
            r@.map_values(|a: &Abstract| *a) == selected(self.view(), Some(key@), min),
    {
        let mut out: Vec<&Abstract> = Vec::new();
        let mut i: usize = 0;
        while i < self.entries.len()
            invariant
                i <= self.entries@.len(),
                out@.map_values(|a: &Abstract| *a) == selected(self.view().subrange(0, i as int), Some(key@), min),
            decreases self.entries@.len() - i,
        {
            let ghost pre = self.view().subrange(0, i + 1);
            assert(pre.drop_last() =~= self.view().subrange(0, i as int));
            let e = &self.entries[i];
            let key_ok = e.0 == *key;
            let grade_ok = match min {
                Some(m) => e.1.verification.rank() >= m.rank(),
                None => true,
            };
            let ghost before = out@;
            if key_ok && grade_ok {
                out.push(&e.1);
                assert(out@.map_values(|a: &Abstract| *a) =~= before.map_values(|a: &Abstract| *a).push(e.1));
            }
            i = i + 1;
        }
        assert(self.view().subrange(0, i as int) =~= self.view());
        out
    }

    /// The keys, each once, in order of first insertion.
    fn keys(&self) -> (r: Vec<String>)
        ensures
            r@.map_values(|k: String| k@) == keys_in_order(self.view()),
    {
        let mut ks: Vec<String> = Vec::new();
        let mut i: usize = 0;
        while i < self.entries.len()
            invariant
                i <= self.entries@.len(),
                ks@.map_values(|k: String| k@) == keys_in_order(self.view().subrange(0, i as int)),
            decreases self.entries@.len() - i,
        {
            let ghost pre = self.view().subrange(0, i + 1);
            assert(pre.drop_last() =~= self.view().subrange(0, i as int));
            let ghost kv = ks@.map_values(|k: String| k@);
            let key = &self.entries[i].0;
            let mut j: usize = 0;
            let mut found = false;
            while j < ks.len()
                invariant
                    j <= ks@.len(),
                    kv == ks@.map_values(|k: String| k@),
                    found <==> exists|m: int| 0 <= m < j && kv[m] == key@,
                decreases ks@.len() - j,
            {
                assert(kv[j as int] == ks@[j as int]@);
                if ks[j] == *key {
                    found = true;
                }
                assert(found <==> exists|m: int| 0 <= m < j + 1 && kv[m] == key@) by {
                    if kv[j as int] == key@ {
                        assert(0 <= j < j + 1 && kv[j as int] == key@);
                    }
                }
                j = j + 1;
            }
            assert(found <==> kv.contains(key@));
            if !found {
                ks.push(key.clone());
                assert(ks@.map_values(|k: String| k@) =~= kv.push(key@));
            }
            i = i + 1;
        }
        assert(self.view().subrange(0, i as int) =~= self.view());
        ks
    }

    /// With a key, the abstracts under it; without one, every bucket one
    /// after another (in order of the key's first insertion). Within a
    /// bucket the order is that of insertion; only grades at least
    /// `min_verification` (when given) are kept.
    pub fn select(&self, tag_key: Option<&str>, min_verification: Option<VerificationStatus>) -> (r: Vec<&Abstract>)
        ensures
            r@.map_values(|a: &Abstract| *a) == match tag_key {
                Some(k) => selected(self.view(), Some(k@), min_verification),
                None => buckets(self.view(), keys_in_order(self.view()), min_verification),
            },
    {
        match tag_key {
            Some(k) => self.bucket(&k.to_owned(), min_verification),
            None => {
                let ks = self.keys();
                let ghost kv = ks@.map_values(|k: String| k@);
                let mut out: Vec<&Abstract> = Vec::new();
                let mut j: usize = 0;
                assert(kv.subrange(0, 0) =~= Seq::<Seq<char>>::empty());
                assert(out@.map_values(|a: &Abstract| *a) =~= Seq::<Abstract>::empty());
                while j < ks.len()
                    invariant
                        j <= ks@.len(),
                        kv == ks@.map_values(|k: String| k@),
                        kv == keys_in_order(self.view()),
                        out@.map_values(|a: &Abstract| *a) == buckets(self.view(), kv.subrange(0, j as int), min_verification),
                    decreases ks@.len() - j,
                {
                    let ghost before = out@;
                    let mut b = self.bucket(&ks[j], min_verification);
                    let ghost bv = b@;
                    out.append(&mut b);
                    assert(kv.subrange(0, j + 1).drop_last() =~= kv.subrange(0, j as int));
                    assert(out@.map_values(|a: &Abstract| *a) =~= before.map_values(|a: &Abstract| *a) + bv.map_values(|a: &Abstract| *a));
                    j = j + 1;
                }
                assert(kv.subrange(0, j as int) =~= kv);
                out
            },
        }
    }
}

} // verus!
