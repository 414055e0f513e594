//! An ordered map from `u64` keys (ticks, snapshot ids, input ids) to values,
//! kept as a vector of pairs sorted by strictly increasing key.
//!
//! The reconciliation engine and the demo recorder both need ordered-map
//! operations whose behaviour is pinned down exactly: first/last key,
//! popping the front, splitting at a key, and floor lookups. All contracts
//! speak over the sequence view `self@` and the spec lookup [`seq_get`].

use vstd::prelude::*;

verus! {

/// Spec-level lookup in a sequence of key/value pairs: the value of the
/// first pair whose key is `k`, scanning from the front.
pub open spec fn seq_get<V>(s: Seq<(u64, V)>, k: u64) -> Option<V>
    decreases s.len(),
{
    if s.len() == 0 {
        None
    } else if s[0].0 == k {
        Some(s[0].1)
    } else {
        seq_get(s.drop_first(), k)
    }
}

/// Spec-level count of pairs whose key is below `k`; in a sorted sequence
/// this is the index where `k` would be inserted.
pub open spec fn lower_bound<V>(s: Seq<(u64, V)>, k: u64) -> int
    decreases s.len(),
{
    if s.len() == 0 {
        0
    } else if s[0].0 < k {
        1 + lower_bound(s.drop_first(), k)
    } else {
        0
    }
}

/// Spec-level count of pairs whose key is at or below `k`.
pub open spec fn upper_bound<V>(s: Seq<(u64, V)>, k: u64) -> int
    decreases s.len(),
{
    if s.len() == 0 {
        0
    } else if s[0].0 <= k {
        1 + upper_bound(s.drop_first(), k)
    } else {
        0
    }
}

/// The `upper_bound` of a sorted sequence splits it into keys at or
/// below `k` and keys above `k`.
pub proof fn lemma_upper_bound_splits<V>(s: Seq<(u64, V)>, k: u64)
    requires
        sorted_pairs(s),
    ensures
        0 <= upper_bound(s, k) <= s.len(),
        forall|i: int| 0 <= i < upper_bound(s, k) ==> (#[trigger] s[i]).0 <= k,
        forall|i: int| upper_bound(s, k) <= i < s.len() ==> (#[trigger] s[i]).0 > k,
    decreases s.len(),
{
    if s.len() > 0 {
        let d = s.drop_first();
        assert(sorted_pairs(d)) by {
            assert(forall|i: int| 0 <= i < d.len() ==> #[trigger] d[i] == s[i + 1]);
        }
        lemma_upper_bound_splits(d, k);
        if s[0].0 <= k {
            let ub = upper_bound(s, k);
            assert(ub == 1 + upper_bound(d, k));
            assert forall|i: int| 0 <= i < ub implies (#[trigger] s[i]).0 <= k by {
                if i > 0 {
                    assert(s[i] == d[i - 1]);
                }
            }
            assert forall|i: int| ub <= i < s.len() implies (#[trigger] s[i]).0 > k by {
                assert(s[i] == d[i - 1]);
            }
        } else {
            assert forall|i: int| 0 <= i < s.len() implies (#[trigger] s[i]).0 > k by {
                if i > 0 {
                    assert(s[0].0 < s[i].0);
                }
            }
        }
    }
}

/// The keys of a pair sequence, in order.
pub open spec fn keys_of<V>(s: Seq<(u64, V)>) -> Seq<u64> {
    s.map_values(|p: (u64, V)| p.0)
}

/// Strictly increasing keys: the well-formedness of a [`TickMap`].
pub open spec fn sorted_pairs<V>(s: Seq<(u64, V)>) -> bool {
    forall|i: int, j: int| 0 <= i < j < s.len() ==> #[trigger] s[i].0 < #[trigger] s[j].0
}

/// Unfolding helper: a lookup skips over a non-matching front element.
pub proof fn lemma_seq_get_skip<V>(s: Seq<(u64, V)>, k: u64, i: int)
    requires
        0 <= i < s.len(),
        s[i].0 != k,
    ensures
        seq_get(s.skip(i), k) == seq_get(s.skip(i + 1), k),
{
    assert(s.skip(i).len() > 0);
    assert(s.skip(i)[0] == s[i]);
    assert(s.skip(i).drop_first() =~= s.skip(i + 1));
}

/// In a sorted pair sequence a successful lookup names an actual element.
pub proof fn lemma_seq_get_some_index<V>(s: Seq<(u64, V)>, k: u64)
    requires
        seq_get(s, k).is_some(),
    ensures
        exists|i: int| 0 <= i < s.len() && #[trigger] s[i] == (k, seq_get(s, k).unwrap()),
    decreases s.len(),
{
    if s.len() > 0 {
        if s[0].0 == k {
            assert(s[0] == (k, seq_get(s, k).unwrap()));
        } else {
            lemma_seq_get_some_index(s.drop_first(), k);
            let j = choose|j: int|
                0 <= j < s.drop_first().len() && #[trigger] s.drop_first()[j] == (
                k,
                seq_get(s.drop_first(), k).unwrap(),
                );
            assert(s[j + 1] == (k, seq_get(s, k).unwrap()));
        }
    }
}

/// In a sorted pair sequence an element makes the lookup succeed with it.
pub proof fn lemma_seq_get_of_index<V>(s: Seq<(u64, V)>, i: int)
    requires
        sorted_pairs(s),
        0 <= i < s.len(),
    ensures
        seq_get(s, s[i].0) == Some(s[i].1),
    decreases s.len(),
{
    if i == 0 {
    } else {
        assert(s[0].0 < s[i].0);
        lemma_seq_get_of_index(s.drop_first(), i - 1);
        assert(s.drop_first()[i - 1] == s[i]);
    }
}

/// A key below every key in the sequence is absent.
pub proof fn lemma_seq_get_none_below<V>(s: Seq<(u64, V)>, k: u64)
    requires
        forall|i: int| 0 <= i < s.len() ==> k < #[trigger] s[i].0,
    ensures
        seq_get(s, k) == None::<V>,
    decreases s.len(),
{
    if s.len() > 0 {
        assert(s[0].0 > k);
        assert(forall|i: int|
            0 <= i < s.drop_first().len() ==> k < #[trigger] s.drop_first()[i].0) by {
            assert(forall|i: int|
                0 <= i < s.drop_first().len() ==> s.drop_first()[i] == s[i + 1]);
        }
        lemma_seq_get_none_below(s.drop_first(), k);
    }
}

/// An absent key: no element carries it.
pub proof fn lemma_seq_get_none_no_index<V>(s: Seq<(u64, V)>, k: u64)
    requires
        seq_get(s, k).is_none(),
    ensures
        forall|i: int| 0 <= i < s.len() ==> (#[trigger] s[i]).0 != k,
    decreases s.len(),
{
    if s.len() > 0 {
        let d = s.drop_first();
        lemma_seq_get_none_no_index(d, k);
        assert forall|i: int| 0 <= i < s.len() implies (#[trigger] s[i]).0 != k by {
            if i > 0 {
                assert(s[i] == d[i - 1]);
            }
        }
    }
}

/// The `lower_bound` of a sorted sequence splits it into keys below `k`
/// and keys at or above `k`.
pub proof fn lemma_lower_bound_splits<V>(s: Seq<(u64, V)>, k: u64)
    requires
        sorted_pairs(s),
    ensures
        0 <= lower_bound(s, k) <= s.len(),
        forall|i: int| 0 <= i < lower_bound(s, k) ==> (#[trigger] s[i]).0 < k,
        forall|i: int| lower_bound(s, k) <= i < s.len() ==> (#[trigger] s[i]).0 >= k,
    decreases s.len(),
{
    if s.len() > 0 {
        let d = s.drop_first();
        assert(sorted_pairs(d)) by {
            assert(forall|i: int| 0 <= i < d.len() ==> #[trigger] d[i] == s[i + 1]);
        }
        lemma_lower_bound_splits(d, k);
        if s[0].0 < k {
            let lb = lower_bound(s, k);
            assert(lb == 1 + lower_bound(d, k));
            assert forall|i: int| 0 <= i < lb implies (#[trigger] s[i]).0 < k by {
                if i > 0 {
                    assert(s[i] == d[i - 1]);
                }
            }
            assert forall|i: int| lb <= i < s.len() implies (#[trigger] s[i]).0 >= k by {
                assert(s[i] == d[i - 1]);
            }
        } else {
            assert forall|i: int| 0 <= i < s.len() implies (#[trigger] s[i]).0 >= k by {
                if i > 0 {
                    assert(s[0].0 < s[i].0);
                }
            }
        }
    }
}

/// An ordered map from `u64` keys to values, sorted by strictly
/// increasing key.
pub struct TickMap<V> {
    entries: Vec<(u64, V)>,
}

impl<V> TickMap<V> {
    /// The sequence of key/value pairs, in key order.
    pub closed spec fn view(&self) -> Seq<(u64, V)> {
        self.entries@
    }

    /// Well-formed: keys strictly increase.
    pub open spec fn wf(&self) -> bool {
        sorted_pairs(self.view())
    }

    /// Spec lookup of `k` in this map.
    pub open spec fn spec_get(&self, k: u64) -> Option<V> {
        seq_get(self.view(), k)
    }

    /// Spec key sequence.
    pub open spec fn spec_keys(&self) -> Seq<u64> {
        keys_of(self.view())
    }

    pub fn new() -> (r: Self)
        ensures
            r.wf(),
            r.view() =~= Seq::<(u64, V)>::empty(),
    {
        TickMap { entries: Vec::new() }
    }

    pub fn len(&self) -> (r: usize)
        ensures
            r == self.view().len(),
    {
        self.entries.len()
    }

    pub fn is_empty(&self) -> (r: bool)
        ensures
            r == (self.view().len() == 0),
    {
        self.entries.len() == 0
    }

    /// The key at position `i`.
    pub fn key_at(&self, i: usize) -> (r: u64)
        requires
            i < self.view().len(),
        ensures
            r == self.view()[i as int].0,
    {
        self.entries[i].0
    }

    /// The value at position `i`.
    pub fn val_at(&self, i: usize) -> (r: &V)
        requires
            i < self.view().len(),
        ensures
            *r == self.view()[i as int].1,
    {
        &self.entries[i].1
    }

    /// The position of key `k`, if present.
    fn index_of(&self, k: u64) -> (r: Option<usize>)
        ensures
            match r {
                Some(i) => i < self.view().len() && self.view()[i as int].0 == k
                    && self.spec_get(k) == Some(self.view()[i as int].1),
                None => self.spec_get(k).is_none(),
            },
    {
        let n = self.entries.len();
        let mut i: usize = 0;
        proof {
            assert(self.view().skip(0) =~= self.view());
        }
        while i < n
            invariant
                i <= n,
                n == self.view().len(),
                seq_get(self.view(), k) == seq_get(self.view().skip(i as int), k),
                forall|j: int| 0 <= j < i ==> (#[trigger] self.view()[j]).0 != k,
            decreases n - i,
        {
            if self.entries[i].0 == k {
                proof {
                    assert(self.view().skip(i as int)[0] == self.view()[i as int]);
                }
                return Some(i);
            }
            proof {
                lemma_seq_get_skip(self.view(), k, i as int);
            }
            i = i + 1;
        }
        proof {
            assert(self.view().skip(n as int) =~= Seq::<(u64, V)>::empty());
        }
        None
    }

    /// Looks the key up; `Some` exactly when the key is in the map.
    pub fn get(&self, k: u64) -> (r: Option<&V>)
        ensures
            match r {
                Some(v) => self.spec_get(k) == Some(*v),
                None => self.spec_get(k).is_none(),
            },
    {
        match self.index_of(k) {
            Some(i) => Some(&self.entries[i].1),
            None => None,
        }
    }

    /// Whether the key is in the map.
    pub fn contains_key(&self, k: u64) -> (r: bool)
        ensures
            r == self.spec_get(k).is_some(),
    {
        self.index_of(k).is_some()
    }

    /// The position where `k` would be inserted to keep the keys sorted.
    fn lower_bound_index(&self, k: u64) -> (r: usize)
        requires
            self.wf(),
        ensures
            r == lower_bound(self.view(), k),
            r <= self.view().len(),
            forall|i: int| 0 <= i < r ==> (#[trigger] self.view()[i]).0 < k,
            forall|i: int| r <= i < self.view().len() ==> (#[trigger] self.view()[i]).0 >= k,
    {
        proof {
            lemma_lower_bound_splits(self.view(), k);
        }
        let n = self.entries.len();
        let mut i: usize = 0;
        while i < n
            invariant
                i <= n,
                n == self.view().len(),
                sorted_pairs(self.view()),
                forall|j: int| 0 <= j < i ==> (#[trigger] self.view()[j]).0 < k,
                i <= lower_bound(self.view(), k),
            decreases n - i,
        {
            proof {
                lemma_lower_bound_splits(self.view(), k);
            }
            if self.entries[i].0 >= k {
                proof {
                    assert(lower_bound(self.view(), k) <= i) by {
                        lemma_lower_bound_splits(self.view(), k);
                        if lower_bound(self.view(), k) > i {
                            assert(self.view()[i as int].0 < k);
                        }
                    }
                }
                return i;
            }
            i = i + 1;
        }
        proof {
            lemma_lower_bound_splits(self.view(), k);
        }
        n
    }

    /// Inserts or replaces; every other key keeps its value. The new pair
    /// lands at the key's sorted position.
    pub fn insert(&mut self, k: u64, v: V)
        requires
            old(self).wf(),
        ensures
            final(self).wf(),
            final(self).spec_get(k) == Some(v),
            forall|k2: u64| k2 != k ==> final(self).spec_get(k2) == old(self).spec_get(k2),
            old(self).spec_get(k).is_some() ==> final(self).view() == old(self).view().update(
                lower_bound(old(self).view(), k),
                (k, v),
            ),
            old(self).spec_get(k).is_none() ==> final(self).view() == old(self).view().take(
                lower_bound(old(self).view(), k),
            ).push((k, v)) + old(self).view().skip(lower_bound(old(self).view(), k)),
            old(self).spec_get(k).is_some() ==> final(self).view().len() == old(
                self,
            ).view().len(),
            old(self).spec_get(k).is_none() ==> final(self).view().len() == old(
                self,
            ).view().len() + 1,
    {
        let ghost olds = self.view();
        let i = self.lower_bound_index(k);
        if i < self.entries.len() && self.entries[i].0 == k {
            proof {
                lemma_seq_get_of_index(self.view(), i as int);
            }
            self.entries.remove(i);
            self.entries.insert(i, (k, v));
            proof {
                let news = self.view();
                assert(news =~= olds.update(i as int, (k, v)));
                lemma_seq_get_of_index(news, i as int);
                assert forall|k2: u64| k2 != k implies seq_get(news, k2) == seq_get(
                    olds,
                    k2,
                ) by {
                    lemma_update_preserves_other_get(olds, i as int, (k, v), k2);
                }
            }
        } else {
            proof {
                if i < self.view().len() {
                    assert(self.view()[i as int].0 > k);
                }
                lemma_seq_get_none_below(self.view().skip(i as int), k);
                assert(seq_get(self.view(), k) == seq_get(self.view().skip(i as int), k)) by {
                    lemma_get_to_skip(self.view(), k, i as int);
                }
            }
            self.entries.insert(i, (k, v));
            proof {
                let news = self.view();
                assert(news =~= olds.take(i as int).push((k, v)) + olds.skip(i as int));
                lemma_insert_sorted(olds, i as int, (k, v));
                lemma_seq_get_of_index(news, i as int);
                assert forall|k2: u64| k2 != k implies seq_get(news, k2) == seq_get(
                    olds,
                    k2,
                ) by {
                    lemma_insert_preserves_other_get(olds, i as int, (k, v), k2);
                }
            }
        }
    }

    /// Removes the key; `Some` exactly when it was present.
    pub fn remove(&mut self, k: u64) -> (r: Option<V>)
        requires
            old(self).wf(),
        ensures
            final(self).wf(),
            r == old(self).spec_get(k),
            final(self).spec_get(k).is_none(),
            forall|k2: u64| k2 != k ==> final(self).spec_get(k2) == old(self).spec_get(k2),
            r.is_some() ==> final(self).view() == old(self).view().take(
                lower_bound(old(self).view(), k),
            ) + old(self).view().skip(lower_bound(old(self).view(), k) + 1),
            r.is_some() ==> final(self).view().len() == old(self).view().len() - 1,
            r.is_none() ==> final(self).view() == old(self).view(),
    {
        let ghost olds = self.view();
        match self.index_of(k) {
            Some(i) => {
                proof {
                    lemma_index_is_lower_bound(olds, i as int, k);
                }
                let (_, v) = self.entries.remove(i);
                proof {
                    let news = self.view();
                    assert(news =~= olds.take(i as int) + olds.skip(i as int + 1));
                    lemma_remove_sorted(olds, i as int);
                    lemma_remove_get(olds, i as int, k);
                    assert forall|k2: u64| k2 != k implies seq_get(news, k2) == seq_get(
                        olds,
                        k2,
                    ) by {
                        lemma_remove_preserves_other_get(olds, i as int, k2);
                    }
                }
                Some(v)
            }
            None => {
                None
            }
        }
    }

    /// The smallest key, if any.
    pub fn first_key(&self) -> (r: Option<u64>)
        ensures
            match r {
                Some(k) => self.view().len() > 0 && k == self.view()[0].0,
                None => self.view().len() == 0,
            },
    {
        if self.entries.len() > 0 {
            Some(self.entries[0].0)
        } else {
            None
        }
    }

    /// The largest key, if any.
    pub fn last_key(&self) -> (r: Option<u64>)
        ensures
            match r {
                Some(k) => self.view().len() > 0 && k == self.view()[self.view().len() - 1].0,
                None => self.view().len() == 0,
            },
    {
        let n = self.entries.len();
        if n > 0 {
            Some(self.entries[n - 1].0)
        } else {
            None
        }
    }

    /// Removes and returns the entry with the smallest key.
    pub fn pop_first(&mut self) -> (r: Option<(u64, V)>)
        requires
            old(self).wf(),
        ensures
            final(self).wf(),
            match r {
                Some(p) => old(self).view().len() > 0 && p == old(self).view()[0]
                    && final(self).view() == old(self).view().drop_first(),
                None => old(self).view().len() == 0 && final(self).view() == old(self).view(),
            },
    {
        if self.entries.len() > 0 {
            let ghost olds = self.view();
            let p = self.entries.remove(0);
            proof {
                assert(self.view() =~= olds.drop_first());
            }
            Some(p)
        } else {
            None
        }
    }

    /// Splits the map: entries with keys `>= k` are returned, entries with
    /// keys `< k` stay.
    pub fn split_off(&mut self, k: u64) -> (r: TickMap<V>)
        requires
            old(self).wf(),
        ensures
            final(self).wf(),
            r.wf(),
            final(self).view() == old(self).view().take(lower_bound(old(self).view(), k)),
            r.view() == old(self).view().skip(lower_bound(old(self).view(), k)),
            old(self).view() == final(self).view() + r.view(),
    {
        let i = self.lower_bound_index(k);
        let ghost olds = self.view();
        let mut tail: Vec<(u64, V)> = Vec::new();
        while self.entries.len() > i
            invariant
                i <= olds.len(),
                tail@.len() <= olds.len() - i,
                self.view() =~= olds.take(i as int) + olds.skip(i + tail@.len()),
                tail@ =~= olds.subrange(i as int, i + tail@.len()),
            decreases self.view().len(),
        {
            let p = self.entries.remove(i);
            tail.push(p);
        }
        proof {
            assert(self.view() =~= olds.take(i as int));
            assert(tail@ =~= olds.skip(i as int));
            lemma_take_sorted(olds, i as int);
            lemma_skip_sorted(olds, i as int);
            assert(olds =~= olds.take(i as int) + olds.skip(i as int));
        }
        TickMap { entries: tail }
    }

    /// Appends an entry whose key exceeds every present key.
    pub fn push_back(&mut self, k: u64, v: V)
        requires
            old(self).wf(),
            forall|i: int| 0 <= i < old(self).view().len() ==> (#[trigger] old(self).view()[i]).0
                < k,
        ensures
            final(self).wf(),
            final(self).view() == old(self).view().push((k, v)),
    {
        let ghost olds = self.view();
        self.entries.push((k, v));
        proof {
            let news = self.view();
            assert(news =~= olds.push((k, v)));
            assert forall|a: int, b: int| 0 <= a < b < news.len() implies #[trigger] news[a].0
                < #[trigger] news[b].0 by {
                if b < news.len() - 1 {
                    assert(news[a] == olds[a] && news[b] == olds[b]);
                } else {
                    assert(news[a] == olds[a] && news[b] == (k, v));
                }
            }
        }
    }

    /// Replaces the value at position `i`, keeping its key.
    pub fn set_val_at(&mut self, i: usize, v: V)
        requires
            old(self).wf(),
            i < old(self).view().len(),
        ensures
            final(self).wf(),
            final(self).view() == old(self).view().update(
                i as int,
                (old(self).view()[i as int].0, v),
            ),
    {
        let ghost olds = self.view();
        let k = self.entries[i].0;
        self.entries.remove(i);
        self.entries.insert(i, (k, v));
        proof {
            let news = self.view();
            assert(news =~= olds.update(i as int, (k, v)));
            assert forall|a: int, b: int| 0 <= a < b < news.len() implies #[trigger] news[a].0
                < #[trigger] news[b].0 by {
                assert(news[a].0 == olds[a].0 && news[b].0 == olds[b].0);
            }
        }
    }

    /// Swaps the value at position `i` for another, returning the old
    /// one; the key stays.
    pub fn swap_val_at(&mut self, i: usize, v: V) -> (r: V)
        requires
            old(self).wf(),
            i < old(self).view().len(),
        ensures
            final(self).wf(),
            r == old(self).view()[i as int].1,
            final(self).view() == old(self).view().update(
                i as int,
                (old(self).view()[i as int].0, v),
            ),
    {
        let ghost olds = self.view();
        let (k, r) = self.entries.remove(i);
        self.entries.insert(i, (k, v));
        proof {
            let news = self.view();
            assert(news =~= olds.update(i as int, (k, v)));
            assert forall|a: int, b: int| 0 <= a < b < news.len() implies #[trigger] news[a].0
                < #[trigger] news[b].0 by {
                assert(news[a].0 == olds[a].0 && news[b].0 == olds[b].0);
            }
        }
        r
    }

    /// A copy of the map; for maps of plain copyable values.
    pub fn duplicate(&self) -> (r: Self) where V: Copy
        ensures
            r.view() == self.view(),
    {
        let n = self.entries.len();
        let mut out: Vec<(u64, V)> = Vec::new();
        let mut i: usize = 0;
        while i < n
            invariant
                i <= n,
                n == self.view().len(),
                out@ =~= self.view().take(i as int),
            decreases n - i,
        {
            let p = self.entries[i];
            out.push(p);
            i = i + 1;
        }
        proof {
            assert(self.view().take(n as int) =~= self.view());
        }
        TickMap { entries: out }
    }

    /// Removes and returns the first `n` entries as a map of their own.
    pub fn take_front(&mut self, n: usize) -> (r: Self)
        requires
            old(self).wf(),
            n <= old(self).view().len(),
        ensures
            final(self).wf(),
            r.wf(),
            r.view() == old(self).view().take(n as int),
            final(self).view() == old(self).view().skip(n as int),
    {
        let ghost olds = self.view();
        let mut out: TickMap<V> = TickMap::new();
        let mut i: usize = 0;
        while i < n
            invariant
                i <= n,
                n <= olds.len(),
                sorted_pairs(olds),
                self.view() =~= olds.skip(i as int),
                self.wf(),
                out.wf(),
                out.view() =~= olds.take(i as int),
            decreases n - i,
        {
            proof {
                lemma_skip_sorted(olds, i as int);
            }
            let p = self.pop_first().unwrap();
            proof {
                assert(p == olds[i as int]);
                assert(self.view() =~= olds.skip(i + 1));
                assert forall|j: int| 0 <= j < out.view().len() implies (
                #[trigger] out.view()[j]).0 < p.0 by {
                    assert(out.view()[j] == olds[j]);
                }
            }
            out.push_back(p.0, p.1);
            i = i + 1;
        }
        out
    }

    /// The position of the greatest key at or below `k`, if any.
    pub fn floor_index(&self, k: u64) -> (r: Option<usize>)
        requires
            self.wf(),
        ensures
            match r {
                Some(i) => i < self.view().len() && self.view()[i as int].0 <= k && forall|
                    j: int,
                |
                    i < j < self.view().len() ==> (#[trigger] self.view()[j]).0 > k,
                None => forall|j: int|
                    0 <= j < self.view().len() ==> (#[trigger] self.view()[j]).0 > k,
            },
    {
        let i = self.lower_bound_index(k);
        if i < self.entries.len() && self.entries[i].0 == k {
            Some(i)
        } else if i > 0 {
            Some(i - 1)
        } else {
            None
        }
    }
}

/// Updating position `i` leaves lookups of other keys unchanged.
proof fn lemma_update_preserves_other_get<V>(s: Seq<(u64, V)>, i: int, p: (u64, V), k2: u64)
    requires
        0 <= i < s.len(),
        s[i].0 == p.0,
        k2 != p.0,
    ensures
        seq_get(s.update(i, p), k2) == seq_get(s, k2),
    decreases s.len(),
{
    if s.len() > 0 {
        if i == 0 {
            assert(s.update(i, p).drop_first() =~= s.drop_first());
        } else {
            assert(s.update(i, p)[0] == s[0]);
            assert(s.update(i, p).drop_first() =~= s.drop_first().update(i - 1, p));
            lemma_update_preserves_other_get(s.drop_first(), i - 1, p, k2);
        }
    }
}

/// Inserting a pair at its sorted position keeps the keys sorted.
proof fn lemma_insert_sorted<V>(s: Seq<(u64, V)>, i: int, p: (u64, V))
    requires
        sorted_pairs(s),
        0 <= i <= s.len(),
        forall|j: int| 0 <= j < i ==> (#[trigger] s[j]).0 < p.0,
        forall|j: int| i <= j < s.len() ==> (#[trigger] s[j]).0 > p.0,
    ensures
        sorted_pairs(s.take(i).push(p) + s.skip(i)),
{
    let t = s.take(i).push(p) + s.skip(i);
    assert forall|a: int, b: int| 0 <= a < b < t.len() implies #[trigger] t[a].0
        < #[trigger] t[b].0 by {
        if a < i {
            assert(t[a] == s[a]);
        } else if a == i {
            assert(t[a] == p);
        } else {
            assert(t[a] == s[a - 1]);
        }
        if b < i {
            assert(t[b] == s[b]);
        } else if b == i {
            assert(t[b] == p);
        } else {
            assert(t[b] == s[b - 1]);
        }
    }
}

/// Inserting a pair leaves lookups of other keys unchanged.
proof fn lemma_insert_preserves_other_get<V>(s: Seq<(u64, V)>, i: int, p: (u64, V), k2: u64)
    requires
        0 <= i <= s.len(),
        k2 != p.0,
    ensures
        seq_get(s.take(i).push(p) + s.skip(i), k2) == seq_get(s, k2),
    decreases i,
{
    let t = s.take(i).push(p) + s.skip(i);
    if i == 0 {
        assert(t[0] == p);
        assert(t.drop_first() =~= s);
    } else {
        assert(t[0] == s[0]);
        if s[0].0 == k2 {
        } else {
            assert(t.drop_first() =~= s.drop_first().take(i - 1).push(p) + s.drop_first().skip(
                i - 1,
            ));
            lemma_insert_preserves_other_get(s.drop_first(), i - 1, p, k2);
        }
    }
}

/// Removing a position keeps the keys sorted.
proof fn lemma_remove_sorted<V>(s: Seq<(u64, V)>, i: int)
    requires
        sorted_pairs(s),
        0 <= i < s.len(),
    ensures
        sorted_pairs(s.take(i) + s.skip(i + 1)),
{
    let t = s.take(i) + s.skip(i + 1);
    assert forall|a: int, b: int| 0 <= a < b < t.len() implies #[trigger] t[a].0
        < #[trigger] t[b].0 by {
        if a < i {
            assert(t[a] == s[a]);
        } else {
            assert(t[a] == s[a + 1]);
        }
        if b < i {
            assert(t[b] == s[b]);
        } else {
            assert(t[b] == s[b + 1]);
        }
    }
}

/// After removing the position that holds `k` (in a sorted sequence), the
/// lookup of `k` fails.
proof fn lemma_remove_get<V>(s: Seq<(u64, V)>, i: int, k: u64)
    requires
        sorted_pairs(s),
        0 <= i < s.len(),
        s[i].0 == k,
    ensures
        seq_get(s.take(i) + s.skip(i + 1), k).is_none(),
{
    let t = s.take(i) + s.skip(i + 1);
    assert forall|j: int| 0 <= j < t.len() implies (#[trigger] t[j]).0 != k by {
        if j < i {
            assert(t[j] == s[j]);
            assert(s[j].0 < s[i].0);
        } else {
            assert(t[j] == s[j + 1]);
            assert(s[j + 1].0 > s[i].0);
        }
    }
    lemma_seq_get_none_of_all_differ(t, k);
}

/// If no element carries `k`, the lookup of `k` fails.
pub proof fn lemma_seq_get_none_of_all_differ<V>(s: Seq<(u64, V)>, k: u64)
    requires
        forall|j: int| 0 <= j < s.len() ==> (#[trigger] s[j]).0 != k,
    ensures
        seq_get(s, k).is_none(),
    decreases s.len(),
{
    if s.len() > 0 {
        assert(forall|j: int|
            0 <= j < s.drop_first().len() ==> #[trigger] s.drop_first()[j] == s[j + 1]);
        lemma_seq_get_none_of_all_differ(s.drop_first(), k);
    }
}

/// Removing one position leaves lookups of other keys unchanged.
proof fn lemma_remove_preserves_other_get<V>(s: Seq<(u64, V)>, i: int, k2: u64)
    requires
        0 <= i < s.len(),
        s[i].0 != k2,
    ensures
        seq_get(s.take(i) + s.skip(i + 1), k2) == seq_get(s, k2),
    decreases i,
{
    let t = s.take(i) + s.skip(i + 1);
    if i == 0 {
        assert(t =~= s.skip(1));
        assert(s.drop_first() =~= s.skip(1));
    } else {
        assert(t[0] == s[0]);
        if s[0].0 == k2 {
        } else {
            assert(t.drop_first() =~= s.drop_first().take(i - 1) + s.drop_first().skip(i));
            lemma_remove_preserves_other_get(s.drop_first(), i - 1, k2);
        }
    }
}

/// In a sorted pair sequence the position that carries `k` is exactly the
/// lower bound of `k`.
pub proof fn lemma_index_is_lower_bound<V>(s: Seq<(u64, V)>, i: int, k: u64)
    requires
        sorted_pairs(s),
        0 <= i < s.len(),
        s[i].0 == k,
    ensures
        lower_bound(s, k) == i,
{
    lemma_lower_bound_splits(s, k);
    let lb = lower_bound(s, k);
    if i < lb {
        assert(s[i].0 < k);
    } else if i > lb {
        assert(s[lb].0 >= k);
        assert(s[lb].0 < s[i].0);
    }
}

/// A prefix of a sorted sequence is sorted.
pub proof fn lemma_take_sorted<V>(s: Seq<(u64, V)>, i: int)
    requires
        sorted_pairs(s),
        0 <= i <= s.len(),
    ensures
        sorted_pairs(s.take(i)),
{
    assert(forall|j: int| 0 <= j < i ==> #[trigger] s.take(i)[j] == s[j]);
}

/// A suffix of a sorted sequence is sorted.
pub proof fn lemma_skip_sorted<V>(s: Seq<(u64, V)>, i: int)
    requires
        sorted_pairs(s),
        0 <= i <= s.len(),
    ensures
        sorted_pairs(s.skip(i)),
{
    assert(forall|j: int| 0 <= j < s.len() - i ==> #[trigger] s.skip(i)[j] == s[j + i]);
}

/// A lookup that failed on the first `i` positions equals the lookup in
/// the suffix from `i`.
proof fn lemma_get_to_skip<V>(s: Seq<(u64, V)>, k: u64, i: int)
    requires
        0 <= i <= s.len(),
        forall|j: int| 0 <= j < i ==> (#[trigger] s[j]).0 != k,
    ensures
        seq_get(s, k) == seq_get(s.skip(i), k),
    decreases i,
{
    if i > 0 {
        let d = s.drop_first();
        assert(s[0].0 != k);
        assert forall|j: int| 0 <= j < i - 1 implies (#[trigger] d[j]).0 != k by {
            assert(d[j] == s[j + 1]);
        }
        lemma_get_to_skip(d, k, i - 1);
        assert(d.skip(i - 1) =~= s.skip(i));
    } else {
        assert(s.skip(0) =~= s);
    }
}

} // verus!
