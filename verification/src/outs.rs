//! The per-tick output cache: a small map from output-port keys to samples.
//!
//! The cache persists across ticks so that feedback patches can read the
//! previous tick's value; NaN placeholders materialized while breaking a
//! cycle are purged at the end of each tick. It is kept as a vector of
//! entries with pairwise distinct keys and viewed as a `Map`.

use vstd::prelude::*;

use crate::key::ModuleKey;
use crate::sample::Sample;

verus! {

/// The map denoted by an entry list, later entries winning (the entry lists
/// kept here never repeat a key, so order does not matter).
pub open spec fn entries_map(s: Seq<(ModuleKey, Sample)>) -> Map<ModuleKey, Sample>
    decreases s.len(),
{
    if s.len() == 0 {
        Map::empty()
    } else {
        entries_map(s.drop_last()).insert(s.last().0, s.last().1)
    }
}

/// Whether the keys of `s` are pairwise distinct.
pub open spec fn entries_unique(s: Seq<(ModuleKey, Sample)>) -> bool {
    forall|i: int, j: int| 0 <= i < j < s.len() ==> (#[trigger] s[i]).0 != (#[trigger] s[j]).0
}

proof fn lemma_entries_map_contains(s: Seq<(ModuleKey, Sample)>, k: ModuleKey)
    ensures
        entries_map(s).contains_key(k) <==> exists|i: int|
            0 <= i < s.len() && (#[trigger] s[i]).0 == k,
    decreases s.len(),
{
    if s.len() > 0 {
        lemma_entries_map_contains(s.drop_last(), k);
        if entries_map(s).contains_key(k) {
            if s.last().0 == k {
                assert(s[s.len() - 1].0 == k);
            } else {
                let i = choose|i: int| 0 <= i < s.drop_last().len() && (#[trigger] s.drop_last()[i]).0 == k;
                assert(s[i].0 == k);
            }
        }
        if exists|i: int| 0 <= i < s.len() && (#[trigger] s[i]).0 == k {
            let i = choose|i: int| 0 <= i < s.len() && (#[trigger] s[i]).0 == k;
            if i < s.len() - 1 {
                assert(s.drop_last()[i].0 == k);
            }
        }
    }
}

proof fn lemma_entries_map_at(s: Seq<(ModuleKey, Sample)>, i: int)
    requires
        entries_unique(s),
        0 <= i < s.len(),
    ensures
        entries_map(s).contains_key(s[i].0),
        entries_map(s)[s[i].0] == s[i].1,
    decreases s.len(),
{
    if i < s.len() - 1 {
        lemma_entries_map_at(s.drop_last(), i);
        assert(s[s.len() - 1].0 != s[i].0);
    }
}

proof fn lemma_entries_map_update(s: Seq<(ModuleKey, Sample)>, i: int, v: Sample)
    requires
        entries_unique(s),
        0 <= i < s.len(),
    ensures
        entries_map(s.update(i, (s[i].0, v))) =~= entries_map(s).insert(s[i].0, v),
    decreases s.len(),
{
    let t = s.update(i, (s[i].0, v));
    if i == s.len() - 1 {
        assert(t.drop_last() =~= s.drop_last());
    } else {
        lemma_entries_map_update(s.drop_last(), i, v);
        assert(t.drop_last() =~= s.drop_last().update(i, (s[i].0, v)));
        assert(s[s.len() - 1].0 != s[i].0);
    }
}

/// The output cache.
pub struct Outs {
    entries: Vec<(ModuleKey, Sample)>,
}

impl View for Outs {
    type V = Map<ModuleKey, Sample>;

    closed spec fn view(&self) -> Map<ModuleKey, Sample> {
        entries_map(self.entries@)
    }
}

impl Outs {
    /// Well-formedness: no key occurs twice.
    pub closed spec fn wf(&self) -> bool {
        entries_unique(self.entries@)
    }

    /// An empty cache.
    pub fn new() -> (r: Outs)
        ensures
            r.wf(),
            r@ =~= Map::<ModuleKey, Sample>::empty(),
    {
        Outs { entries: Vec::new() }
    }

    /// Whether the cache holds a value for `k`.
    pub fn contains(&self, k: ModuleKey) -> (r: bool)
        ensures
            r == self@.contains_key(k),
    {
        let n = self.entries.len();
        let mut i: usize = 0;
        while i < n
            invariant
                n == self.entries@.len(),
                0 <= i <= n,
                forall|j: int| 0 <= j < i ==> (#[trigger] self.entries@[j]).0 != k,
            decreases n - i,
        {
            if self.entries[i].0 == k {
                proof {
                    lemma_entries_map_contains(self.entries@, k);
                }
                return true;
            }
            i = i + 1;
        }
        proof {
            lemma_entries_map_contains(self.entries@, k);
        }
        false
    }

    /// The value cached for `k`, if any.
    pub fn get(&self, k: ModuleKey) -> (r: Option<Sample>)
        requires
            self.wf(),
        ensures
            match r {
                Some(v) => self@.contains_key(k) && v == self@[k],
                None => !self@.contains_key(k),
            },
    {
        let n = self.entries.len();
        let mut i: usize = 0;
        while i < n
            invariant
                self.wf(),
                n == self.entries@.len(),
                0 <= i <= n,
                forall|j: int| 0 <= j < i ==> (#[trigger] self.entries@[j]).0 != k,
            decreases n - i,
        {
            let e = self.entries[i];
            if e.0 == k {
                proof {
                    lemma_entries_map_at(self.entries@, i as int);
                }
                return Some(e.1);
            }
            i = i + 1;
        }
        proof {
            lemma_entries_map_contains(self.entries@, k);
        }
        None
    }

    /// Cache `v` for `k`, replacing any earlier value.
    pub fn insert(&mut self, k: ModuleKey, v: Sample)
        requires
            old(self).wf(),
        ensures
            final(self).wf(),
            final(self)@ =~= old(self)@.insert(k, v),
    {
        let n = self.entries.len();
        let mut i: usize = 0;
        while i < n
            invariant
                self.wf(),
                self == old(self),
                n == self.entries@.len(),
                0 <= i <= n,
                forall|j: int| 0 <= j < i ==> (#[trigger] self.entries@[j]).0 != k,
            decreases n - i,
        {
            if self.entries[i].0 == k {
                proof {
                    lemma_entries_map_update(self.entries@, i as int, v);
                }
                self.entries[i] = (k, v);
                return ;
            }
            i = i + 1;
        }
        proof {
            assert(self.entries@.push((k, v)).drop_last() =~= self.entries@);
            assert(forall|j: int|
                0 <= j < self.entries@.len() ==> (#[trigger] self.entries@[j]).0 != k);
        }
        self.entries.push((k, v));
    }

    /// Drop every entry, as on rack teardown.
    pub fn clear(&mut self)
        ensures
            final(self).wf(),
            final(self)@ =~= Map::<ModuleKey, Sample>::empty(),
    {
        self.entries.clear();
    }

    /// Drop every NaN entry; real values persist into the next tick.
    pub fn purge_nan(&mut self)
        requires
            old(self).wf(),
        ensures
            final(self).wf(),
            forall|k: ModuleKey| #[trigger]
                final(self)@.contains_key(k) <==> old(self)@.contains_key(k) && !old(
                self,
                )@[k].spec_is_nan(),
            forall|k: ModuleKey| #[trigger]
                final(self)@.contains_key(k) ==> final(self)@[k] == old(self)@[k],
    {
        let n = self.entries.len();
        let mut kept: Vec<(ModuleKey, Sample)> = Vec::new();
        let mut i: usize = 0;
        while i < n
            invariant
                old(self).wf(),
                self == old(self),
                n == self.entries@.len(),
                0 <= i <= n,
                entries_unique(kept@),
                forall|k: ModuleKey| #[trigger]
                    entries_map(kept@).contains_key(k) <==> entries_map(
                        self.entries@.take(i as int),
                    ).contains_key(k) && !entries_map(self.entries@.take(i as int))[
                    k].spec_is_nan(),
                forall|k: ModuleKey| #[trigger]
                    entries_map(kept@).contains_key(k) ==> entries_map(kept@)[k] == entries_map(
                        self.entries@.take(i as int),
                    )[k],
            decreases n - i,
        {
            let e = self.entries[i];
            proof {
                assert(self.entries@.take(i + 1).drop_last() =~= self.entries@.take(i as int));
                assert(self.entries@.take(i + 1).last() == e);
                // The key of entry i is new to the prefix, by uniqueness.
                lemma_entries_map_contains(self.entries@.take(i as int), e.0);
                assert(forall|j: int|
                    0 <= j < i ==> (#[trigger] self.entries@.take(i as int)[j]) == self.entries@[j]);
                lemma_entries_map_contains(kept@, e.0);
            }
            if !e.1.is_nan() {
                proof {
                    assert(kept@.push(e).drop_last() =~= kept@);
                }
                kept.push(e);
            }
            i = i + 1;
        }
        proof {
            assert(self.entries@.take(n as int) =~= self.entries@);
        }
        self.entries = kept;
    }
}

} // verus!
