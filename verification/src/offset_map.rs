//! A small ordered map keyed by `u32` byte offsets.
//!
//! Entries live in a vector sorted by strictly increasing key, so iteration
//! follows offset order (the order the writer emits relocations in and the
//! order the reader walks sub-structures in).

use vstd::prelude::*;

verus! {

/// Keys of `s` strictly increase from front to back.
pub open spec fn keys_increasing<V>(s: Seq<(u32, V)>) -> bool {
    forall|i: int, j: int| 0 <= i < j < s.len() ==> s[i].0 < s[j].0
}

/// The map a sorted sequence of pairs denotes.
pub open spec fn pairs_to_map<V>(s: Seq<(u32, V)>) -> Map<u32, V>
    decreases s.len(),
{
    if s.len() == 0 {
        Map::empty()
    } else {
        pairs_to_map(s.drop_last()).insert(s.last().0, s.last().1)
    }
}

/// Position of key `k` in `s`, if any.
pub open spec fn has_key_at<V>(s: Seq<(u32, V)>, k: u32) -> bool {
    exists|i: int| 0 <= i < s.len() && s[i].0 == k
}

pub proof fn lemma_pairs_to_map<V>(s: Seq<(u32, V)>)
    requires
        keys_increasing(s),
    ensures
        forall|k: u32| #[trigger] pairs_to_map(s).contains_key(k) <==> has_key_at(s, k),
        forall|i: int| 0 <= i < s.len() ==> #[trigger] pairs_to_map(s)[s[i].0] == s[i].1,
        pairs_to_map(s).dom().finite(),
    decreases s.len(),
{
    if s.len() > 0 {
        let t = s.drop_last();
        lemma_pairs_to_map(t);
        assert forall|k: u32| #[trigger] pairs_to_map(s).contains_key(k) <==> has_key_at(s, k) by {
            if has_key_at(s, k) {
                let i = choose|i: int| 0 <= i < s.len() && s[i].0 == k;
                if i < s.len() - 1 {
                    assert(t[i].0 == k);
                }
            }
            if pairs_to_map(s).contains_key(k) && k != s.last().0 {
                let i = choose|i: int| 0 <= i < t.len() && t[i].0 == k;
                assert(s[i].0 == k);
            }
        }
        assert forall|i: int| 0 <= i < s.len() implies #[trigger] pairs_to_map(s)[s[i].0] == s[i].1 by {
            if i < s.len() - 1 {
                assert(t[i] == s[i]);
                assert(s[i].0 < s.last().0);
            }
        }
    }
}

/// Ordered map from `u32` offsets to `V`.
#[derive(Debug)]
pub struct OffsetMap<V> {
    entries: Vec<(u32, V)>,
}

impl<V: Copy> OffsetMap<V> {
    /// The sorted entry sequence.
    pub closed spec fn pairs(&self) -> Seq<(u32, V)> {
        self.entries@
    }

    /// Keys strictly increase.
    pub closed spec fn wf(&self) -> bool {
        keys_increasing(self.entries@)
    }

    /// The mathematical map.
    pub open spec fn view(&self) -> Map<u32, V> {
        pairs_to_map(self.pairs())
    }

    pub proof fn lemma_view(&self)
        requires
            self.wf(),
        ensures
            keys_increasing(self.pairs()),
            forall|k: u32| #[trigger] self.view().contains_key(k) <==> has_key_at(self.pairs(), k),
            forall|i: int| 0 <= i < self.pairs().len() ==> #[trigger] self.view()[self.pairs()[i].0]
                == self.pairs()[i].1,
            self.view().dom().finite(),
    {
        lemma_pairs_to_map(self.entries@);
    }

    pub fn new() -> (m: Self)
        ensures
            m.wf(),
            m.pairs().len() == 0,
            m.view() == Map::<u32, V>::empty(),
    {
        OffsetMap { entries: Vec::new() }
    }

    pub fn len(&self) -> (n: usize)
        ensures
            n == self.pairs().len(),
    {
        self.entries.len()
    }

    pub fn is_empty(&self) -> (b: bool)
        requires
            self.wf(),
        ensures
            b == (self.pairs().len() == 0),
            b == (self.view().dom() =~= Set::<u32>::empty()),
    {
        proof {
            self.lemma_view();
            if self.pairs().len() > 0 {
                assert(has_key_at(self.pairs(), self.pairs()[0].0));
                assert(self.view().dom().contains(self.pairs()[0].0));
            }
        }
        self.entries.len() == 0
    }

    /// Entry at position `i` in key order.
    pub fn entry(&self, i: usize) -> (e: (u32, V))
        requires
            i < self.pairs().len(),
        ensures
            e == self.pairs()[i as int],
    {
        self.entries[i]
    }

    /// Binary search: `Ok(i)` when `entries[i].0 == k`, else `Err(i)` with
    /// `i` the insertion point.
    fn search(&self, k: u32) -> (r: Result<usize, usize>)
        requires
            self.wf(),
        ensures
            match r {
                Ok(i) => i < self.pairs().len() && self.pairs()[i as int].0 == k,
                Err(i) => i <= self.pairs().len() && (forall|j: int|
                    0 <= j < i ==> self.pairs()[j].0 < k) && (forall|j: int|
                    i <= j < self.pairs().len() ==> self.pairs()[j].0 > k),
            },
    {
        let mut lo: usize = 0;
        let mut hi: usize = self.entries.len();
        while lo < hi
            invariant
                self.wf(),
                lo <= hi <= self.entries@.len(),
                forall|j: int| 0 <= j < lo ==> self.entries@[j].0 < k,
                forall|j: int| hi <= j < self.entries@.len() ==> self.entries@[j].0 > k,
            decreases hi - lo,
        {
            let mid = lo + (hi - lo) / 2;
            let key = self.entries[mid].0;
            if key == k {
                return Ok(mid);
            } else if key < k {
                lo = mid + 1;
            } else {
                hi = mid;
            }
        }
        Err(lo)
    }

    /// Value stored at `k`, if any.
    pub fn get(&self, k: u32) -> (r: Option<V>)
        requires
            self.wf(),
        ensures
            r == (if self.view().contains_key(k) {
                Some(self.view()[k])
            } else {
                None
            }),
    {
        proof {
            self.lemma_view();
        }
        match self.search(k) {
            Ok(i) => Some(self.entries[i].1),
            Err(i) => {
                proof {
                    if has_key_at(self.pairs(), k) {
                        let j = choose|j: int| 0 <= j < self.pairs().len() && self.pairs()[j].0 == k;
                        assert(false);
                    }
                }
                None
            },
        }
    }

    /// Position of key `k` in key order, if present.
    pub fn position(&self, k: u32) -> (r: Option<usize>)
        requires
            self.wf(),
        ensures
            r matches Some(i) ==> i < self.pairs().len() && self.pairs()[i as int].0 == k,
            r is None ==> !self.view().contains_key(k),
    {
        proof {
            self.lemma_view();
        }
        match self.search(k) {
            Ok(i) => Some(i),
            Err(i) => {
                proof {
                    if has_key_at(self.pairs(), k) {
                        let j = choose|j: int| 0 <= j < self.pairs().len() && self.pairs()[j].0 == k;
                        assert(false);
                    }
                }
                None
            },
        }
    }

    pub fn contains_key(&self, k: u32) -> (b: bool)
        requires
            self.wf(),
        ensures
            b == self.view().contains_key(k),
    {
        match self.get(k) {
            Some(_) => true,
            None => false,
        }
    }

    /// Insert or replace the value at `k`.
    pub fn insert(&mut self, k: u32, v: V)
        requires
            old(self).wf(),
        ensures
            final(self).wf(),
            final(self).view() == old(self).view().insert(k, v),
            final(self).pairs().len() == old(self).pairs().len() + (if old(self).view().contains_key(
                k,
            ) {
                0int
            } else {
                1int
            }),
    {
        proof {
            self.lemma_view();
        }
        let ghost s = self.entries@;
        match self.search(k) {
            Ok(i) => {
                self.entries.set(i, (k, v));
                proof {
                    let t = self.entries@;
                    assert(t == s.update(i as int, (k, v)));
                    assert(keys_increasing(t)) by {
                        assert forall|a: int, b: int| 0 <= a < b < t.len() implies t[a].0 < t[b].0 by {
                            assert(s[a].0 < s[b].0);
                        }
                    }
                    lemma_pairs_to_map(t);
                    lemma_pairs_to_map(s);
                    assert(has_key_at(s, k));
                    assert(pairs_to_map(t) =~= pairs_to_map(s).insert(k, v)) by {
                        assert forall|q: u32| #[trigger] pairs_to_map(t).contains_key(q)
                            <==> pairs_to_map(s).insert(k, v).contains_key(q) by {
                            if has_key_at(t, q) {
                                let j = choose|j: int| 0 <= j < t.len() && t[j].0 == q;
                                assert(s[j].0 == q);
                            }
                            if has_key_at(s, q) {
                                let j = choose|j: int| 0 <= j < s.len() && s[j].0 == q;
                                assert(t[j].0 == q);
                            }
                        }
                        assert forall|q: u32| #[trigger] pairs_to_map(t).contains_key(q)
                            implies pairs_to_map(t)[q] == pairs_to_map(s).insert(k, v)[q] by {
                            let j = choose|j: int| 0 <= j < t.len() && t[j].0 == q;
                            assert(pairs_to_map(t)[t[j].0] == t[j].1);
                            if j != i {
                                assert(pairs_to_map(s)[s[j].0] == s[j].1);
                            }
                        }
                    }
                }
            },
            Err(i) => {
                self.entries.insert(i, (k, v));
                proof {
                    let t = self.entries@;
                    assert(t == s.insert(i as int, (k, v)));
                    assert(keys_increasing(t)) by {
                        assert forall|a: int, b: int| 0 <= a < b < t.len() implies t[a].0 < t[b].0 by {
                            if b < i {
                                assert(s[a].0 < s[b].0);
                            } else if b == i {
                                assert(t[a] == s[a]);
                            } else if a == i {
                                assert(t[b] == s[b - 1]);
                            } else if a < i {
                                assert(t[b] == s[b - 1]);
                                assert(t[a] == s[a]);
                            } else {
                                assert(s[a - 1].0 < s[b - 1].0);
                            }
                        }
                    }
                    lemma_pairs_to_map(t);
                    lemma_pairs_to_map(s);
                    assert(!has_key_at(s, k)) by {
                        if has_key_at(s, k) {
                            let j = choose|j: int| 0 <= j < s.len() && s[j].0 == k;
                        }
                    }
                    assert(pairs_to_map(t) =~= pairs_to_map(s).insert(k, v)) by {
                        assert forall|q: u32| #[trigger] pairs_to_map(t).contains_key(q)
                            <==> pairs_to_map(s).insert(k, v).contains_key(q) by {
                            if has_key_at(t, q) {
                                let j = choose|j: int| 0 <= j < t.len() && t[j].0 == q;
                                if j < i {
                                    assert(s[j].0 == q);
                                } else if j > i {
                                    assert(s[j - 1].0 == q);
                                }
                            }
                            if has_key_at(s, q) {
                                let j = choose|j: int| 0 <= j < s.len() && s[j].0 == q;
                                if j < i {
                                    assert(t[j].0 == q);
                                } else {
                                    assert(t[j + 1].0 == q);
                                }
                            }
                            if q == k {
                                assert(t[i as int].0 == q);
                            }
                        }
                        assert forall|q: u32| #[trigger] pairs_to_map(t).contains_key(q)
                            implies pairs_to_map(t)[q] == pairs_to_map(s).insert(k, v)[q] by {
                            let j = choose|j: int| 0 <= j < t.len() && t[j].0 == q;
                            assert(pairs_to_map(t)[t[j].0] == t[j].1);
                            if j < i {
                                assert(pairs_to_map(s)[s[j].0] == s[j].1);
                            } else if j > i {
                                assert(pairs_to_map(s)[s[j - 1].0] == s[j - 1].1);
                            }
                        }
                    }
                }
            },
        }
    }

    /// Remove the entry at `k`, if present.
    pub fn remove(&mut self, k: u32)
        requires
            old(self).wf(),
        ensures
            final(self).wf(),
            final(self).view() == old(self).view().remove(k),
    {
        proof {
            self.lemma_view();
        }
        let ghost s = self.entries@;
        match self.search(k) {
            Ok(i) => {
                self.entries.remove(i);
                proof {
                    let t = self.entries@;
                    assert(t == s.remove(i as int));
                    assert(keys_increasing(t)) by {
                        assert forall|a: int, b: int| 0 <= a < b < t.len() implies t[a].0 < t[b].0 by {
                            if b < i {
                                assert(s[a].0 < s[b].0);
                            } else if a < i {
                                assert(s[a].0 < s[b + 1].0);
                            } else {
                                assert(s[a + 1].0 < s[b + 1].0);
                            }
                        }
                    }
                    lemma_pairs_to_map(t);
                    lemma_pairs_to_map(s);
                    assert(pairs_to_map(t) =~= pairs_to_map(s).remove(k)) by {
                        assert forall|q: u32| #[trigger] pairs_to_map(t).contains_key(q)
                            <==> pairs_to_map(s).remove(k).contains_key(q) by {
                            if has_key_at(t, q) {
                                let j = choose|j: int| 0 <= j < t.len() && t[j].0 == q;
                                if j < i {
                                    assert(s[j].0 == q);
                                    assert(s[j].0 < s[i as int].0);
                                } else {
                                    assert(s[j + 1].0 == q);
                                    assert(s[i as int].0 < s[j + 1].0);
                                }
                            }
                            if has_key_at(s, q) && q != k {
                                let j = choose|j: int| 0 <= j < s.len() && s[j].0 == q;
                                if j < i {
                                    assert(t[j].0 == q);
                                } else {
                                    assert(j != i);
                                    assert(t[j - 1].0 == q);
                                }
                            }
                        }
                        assert forall|q: u32| #[trigger] pairs_to_map(t).contains_key(q)
                            implies pairs_to_map(t)[q] == pairs_to_map(s).remove(k)[q] by {
                            let j = choose|j: int| 0 <= j < t.len() && t[j].0 == q;
                            assert(pairs_to_map(t)[t[j].0] == t[j].1);
                            if j < i {
                                assert(pairs_to_map(s)[s[j].0] == s[j].1);
                            } else {
                                assert(pairs_to_map(s)[s[j + 1].0] == s[j + 1].1);
                            }
                        }
                    }
                }
            },
            Err(i) => {
                proof {
                    assert(!has_key_at(s, k)) by {
                        if has_key_at(s, k) {
                            let j = choose|j: int| 0 <= j < s.len() && s[j].0 == k;
                        }
                    }
                    assert(pairs_to_map(s).remove(k) =~= pairs_to_map(s));
                }
            },
        }
    }

    /// Drop every entry whose key is `>= cap`.
    pub fn retain_below(&mut self, cap: u32)
        requires
            old(self).wf(),
        ensures
            final(self).wf(),
            final(self).view() == old(self).view().restrict(
                Set::new(|k: u32| k < cap),
            ),
    {
        proof {
            self.lemma_view();
        }
        let ghost s = self.entries@;
        let n = match self.search(cap) {
            Ok(i) => i,
            Err(i) => i,
        };
        self.entries.truncate(n);
        proof {
            let t = self.entries@;
            assert(t == s.subrange(0, n as int));
            lemma_pairs_to_map(t);
            assert(pairs_to_map(t) =~= pairs_to_map(s).restrict(Set::new(|k: u32| k < cap))) by {
                assert forall|q: u32| #[trigger] pairs_to_map(t).contains_key(q)
                    <==> pairs_to_map(s).restrict(Set::new(|k: u32| k < cap)).contains_key(q) by {
                    if has_key_at(t, q) {
                        let j = choose|j: int| 0 <= j < t.len() && t[j].0 == q;
                        assert(s[j].0 == q);
                    }
                    if has_key_at(s, q) && q < cap {
                        let j = choose|j: int| 0 <= j < s.len() && s[j].0 == q;
                        assert(t[j].0 == q);
                    }
                }
                assert forall|q: u32| #[trigger] pairs_to_map(t).contains_key(q)
                    implies pairs_to_map(t)[q] == pairs_to_map(s)[q] by {
                    let j = choose|j: int| 0 <= j < t.len() && t[j].0 == q;
                    assert(pairs_to_map(t)[t[j].0] == t[j].1);
                    assert(pairs_to_map(s)[s[j].0] == s[j].1);
                }
            }
        }
    }
}

} // verus!
