use crate::dec::Dec;
use vstd::prelude::*;

verus! {

/// No key occurs twice in the association list.
pub open spec fn keys_unique(s: Seq<(u64, Dec)>) -> bool {
    forall|i: int, j: int| 0 <= i < j < s.len() ==> s[i].0 != s[j].0
}

/// Some entry carries this key.
pub open spec fn has_key(s: Seq<(u64, Dec)>, k: u64) -> bool {
    exists|i: int| 0 <= i < s.len() && s[i].0 == k
}

/// The position of the entry carrying `k`; with unique keys it is the one
/// such position.
pub open spec fn key_index(s: Seq<(u64, Dec)>, k: u64) -> int {
    choose|i: int| 0 <= i < s.len() && s[i].0 == k
}

/// The mathematical map held by an association list (a later entry would
/// win; with unique keys every entry is in force).
pub open spec fn map_of(s: Seq<(u64, Dec)>) -> Map<u64, Dec>
    decreases s.len(),
{
    if s.len() == 0 {
        Map::empty()
    } else {
        map_of(s.drop_last()).insert(s.last().0, s.last().1)
    }
}

/// A key is in the map exactly when some entry carries it.
pub proof fn lemma_map_of_contains(s: Seq<(u64, Dec)>, k: u64)
    ensures
        map_of(s).contains_key(k) <==> exists|i: int| 0 <= i < s.len() && s[i].0 == k,
    decreases s.len(),
{
    if s.len() > 0 {
        let t = s.drop_last();
        lemma_map_of_contains(t, k);
        if s.last().0 == k {
            assert(s[s.len() - 1].0 == k);
        } else {
            if map_of(s).contains_key(k) {
                let i = choose|i: int| 0 <= i < t.len() && t[i].0 == k;
                assert(s[i].0 == k);
            }
            if exists|i: int| 0 <= i < s.len() && s[i].0 == k {
                let i = choose|i: int| 0 <= i < s.len() && s[i].0 == k;
                assert(t[i].0 == k);
            }
        }
    }
}

/// With unique keys, each entry is in force in the map.
pub proof fn lemma_map_of_index(s: Seq<(u64, Dec)>, i: int)
    requires
        keys_unique(s),
        0 <= i < s.len(),
    ensures
        map_of(s).contains_key(s[i].0),
        map_of(s)[s[i].0] == s[i].1,
    decreases s.len(),
{
    if i < s.len() - 1 {
        let t = s.drop_last();
        assert(t[i] == s[i]);
        lemma_map_of_index(t, i);
        assert(s.last().0 != s[i].0);
    }
}

/// Overwriting the value of the entry at `i` updates just that key.
proof fn lemma_map_of_update(s: Seq<(u64, Dec)>, i: int, v: Dec)
    requires
        keys_unique(s),
        0 <= i < s.len(),
    ensures
        map_of(s.update(i, (s[i].0, v))) =~= map_of(s).insert(s[i].0, v),
    decreases s.len(),
{
    let u = s.update(i, (s[i].0, v));
    if i == s.len() - 1 {
        assert(u.drop_last() =~= s.drop_last());
    } else {
        assert(u.drop_last() =~= s.drop_last().update(i, (s[i].0, v)));
        lemma_map_of_update(s.drop_last(), i, v);
        assert(s.last().0 != s[i].0);
    }
}

/// Removing the entry at `i` removes just that key.
proof fn lemma_map_of_remove(s: Seq<(u64, Dec)>, i: int)
    requires
        keys_unique(s),
        0 <= i < s.len(),
    ensures
        map_of(s.remove(i)) =~= map_of(s).remove(s[i].0),
        keys_unique(s.remove(i)),
    decreases s.len(),
{
    let u = s.remove(i);
    assert(keys_unique(u)) by {
        assert forall|p: int, q: int| 0 <= p < q < u.len() implies u[p].0 != u[q].0 by {
            if q < i {
                assert(u[p] == s[p] && u[q] == s[q]);
            } else if p < i {
                assert(u[p] == s[p] && u[q] == s[q + 1]);
            } else {
                assert(u[p] == s[p + 1] && u[q] == s[q + 1]);
            }
        }
    }
    if i == s.len() - 1 {
        assert(u =~= s.drop_last());
        lemma_map_of_contains(u, s[i].0);
        assert(map_of(u) =~= map_of(s).remove(s[i].0));
    } else {
        assert(u.drop_last() =~= s.drop_last().remove(i));
        lemma_map_of_remove(s.drop_last(), i);
        assert(s.last().0 != s[i].0);
        assert(u.last() == s.last());
    }
}

/// A map from asset identifiers to positive decimal quantities, stored as
/// an association list with unique keys. This is the value-map shape used
/// for share holdings, batch inputs and oracle prices.
#[derive(Debug)]
pub struct ValueMap {
    pub entries: Vec<(u64, Dec)>,
}

impl ValueMap {
    /// Keys are unique, so [`ValueMap::as_map`] captures the whole content.
    pub open spec fn wf(self) -> bool {
        keys_unique(self.entries@)
    }

    /// The mathematical map this value-map holds.
    pub open spec fn as_map(self) -> Map<u64, Dec> {
        map_of(self.entries@)
    }

    /// Every stored value is within the representable range.
    pub open spec fn values_valid(self) -> bool {
        forall|k: u64| #[trigger] self.as_map().contains_key(k) ==> self.as_map()[k].valid()
    }

    /// Every stored value is strictly positive.
    pub open spec fn values_positive(self) -> bool {
        forall|k: u64| #[trigger] self.as_map().contains_key(k) ==> self.as_map()[k].raw > 0
    }

    /// An empty value-map.
    pub fn new() -> (r: ValueMap)
        ensures
            r.wf(),
            r.as_map() == Map::<u64, Dec>::empty(),
            r.entries@.len() == 0,
    {
        ValueMap { entries: Vec::new() }
    }

    /// Number of entries held.
    pub fn len(&self) -> (n: usize)
        ensures
            n == self.entries@.len(),
    {
        self.entries.len()
    }

    /// Whether no entry is held.
    pub fn is_empty(&self) -> (r: bool)
        ensures
            r <==> self.entries@.len() == 0,
            r <==> self.as_map().dom() == Set::<u64>::empty(),
    {
        proof {
            if self.entries@.len() > 0 {
                lemma_map_of_contains(self.entries@, self.entries@[0].0);
            } else {
                assert(self.as_map().dom() =~= Set::<u64>::empty());
            }
        }
        self.entries.len() == 0
    }

    /// The value held for `k`, if any.
    pub fn get(&self, k: u64) -> (r: Option<Dec>)
        requires
            self.wf(),
        ensures
            r is Some <==> self.as_map().contains_key(k),
            r matches Some(v) ==> self.as_map()[k] == v,
    {
        let n: usize = self.entries.len();
        let mut i: usize = 0;
        while i < n
            invariant
                i <= n,
                n == self.entries@.len(),
                self.wf(),
                forall|j: int| 0 <= j < i ==> self.entries@[j].0 != k,
            decreases n - i,
        {
            if self.entries[i].0 == k {
                proof {
                    lemma_map_of_index(self.entries@, i as int);
                }
                return Some(self.entries[i].1);
            }
            i = i + 1;
        }
        proof {
            lemma_map_of_contains(self.entries@, k);
        }
        None
    }

    /// Whether a value is held for `k`.
    pub fn contains_key(&self, k: u64) -> (r: bool)
        requires
            self.wf(),
        ensures
            r == self.as_map().contains_key(k),
    {
        self.get(k).is_some()
    }

    /// Sets the value for `k`, inserting or overwriting.
    pub fn insert(&mut self, k: u64, v: Dec)
        requires
            old(self).wf(),
        ensures
            final(self).wf(),
            final(self).as_map() == old(self).as_map().insert(k, v),
            final(self).entries@.len() <= old(self).entries@.len() + 1,
            has_key(old(self).entries@, k) ==> final(self).entries@ == old(self).entries@.update(
                key_index(old(self).entries@, k),
                (k, v),
            ),
            !has_key(old(self).entries@, k) ==> final(self).entries@ == old(self).entries@.push(
                (k, v),
            ),
    {
        let n: usize = self.entries.len();
        let mut i: usize = 0;
        while i < n
            invariant
                i <= n,
                n == self.entries@.len(),
                self.wf(),
                *self == *old(self),
                forall|j: int| 0 <= j < i ==> self.entries@[j].0 != k,
            decreases n - i,
        {
            if self.entries[i].0 == k {
                proof {
                    lemma_map_of_update(self.entries@, i as int, v);
                    let ki = key_index(self.entries@, k);
                    assert(self.entries@[i as int].0 == k);
                    assert(has_key(self.entries@, k));
                    assert(0 <= ki < self.entries@.len() && self.entries@[ki].0 == k);
                    assert(ki == i);
                }
                self.entries[i] = (k, v);
                proof {
                    assert(final(self).wf()) by {
                        assert(forall|p: int|
                            0 <= p < self.entries@.len() && p != i ==> self.entries@[p]
                                == old(self).entries@[p]);
                    }
                }
                return ;
            }
            i = i + 1;
        }
        proof {
            lemma_map_of_contains(self.entries@, k);
            assert(!has_key(self.entries@, k));
        }
        let ghost s0 = self.entries@;
        self.entries.push((k, v));
        proof {
            assert(self.entries@.drop_last() =~= s0);
            assert(final(self).wf()) by {
                assert(forall|p: int|
                    0 <= p < s0.len() ==> self.entries@[p] == s0[p]);
            }
        }
    }

    /// Removes the entry for `k`, if any.
    pub fn remove(&mut self, k: u64)
        requires
            old(self).wf(),
        ensures
            final(self).wf(),
            final(self).as_map() == old(self).as_map().remove(k),
            final(self).entries@.len() <= old(self).entries@.len(),
            has_key(old(self).entries@, k) ==> final(self).entries@ == old(self).entries@.remove(
                key_index(old(self).entries@, k),
            ),
            !has_key(old(self).entries@, k) ==> final(self).entries@ == old(self).entries@,
    {
        let n: usize = self.entries.len();
        let mut i: usize = 0;
        while i < n
            invariant
                i <= n,
                n == self.entries@.len(),
                self.wf(),
                *self == *old(self),
                forall|j: int| 0 <= j < i ==> self.entries@[j].0 != k,
            decreases n - i,
        {
            if self.entries[i].0 == k {
                proof {
                    lemma_map_of_remove(self.entries@, i as int);
                    let ki = key_index(self.entries@, k);
                    assert(self.entries@[i as int].0 == k);
                    assert(has_key(self.entries@, k));
                    assert(0 <= ki < self.entries@.len() && self.entries@[ki].0 == k);
                    assert(ki == i);
                }
                self.entries.remove(i);
                return ;
            }
            i = i + 1;
        }
        proof {
            lemma_map_of_contains(self.entries@, k);
            assert(!has_key(self.entries@, k));
            assert(self.as_map().remove(k) =~= self.as_map());
        }
    }

    /// The entry at list position `i` (for iteration).
    pub fn entry_at(&self, i: usize) -> (e: (u64, Dec))
        requires
            i < self.entries@.len(),
        ensures
            e == self.entries@[i as int],
    {
        self.entries[i]
    }

    /// An independent copy holding the same entries.
    pub fn duplicate(&self) -> (r: ValueMap)
        ensures
            r.entries@ == self.entries@,
            r.as_map() == self.as_map(),
            r.wf() == self.wf(),
            self.values_valid() ==> r.values_valid(),
            self.values_positive() ==> r.values_positive(),
    {
        let n: usize = self.entries.len();
        let mut v: Vec<(u64, Dec)> = Vec::new();
        let mut i: usize = 0;
        while i < n
            invariant
                i <= n,
                n == self.entries@.len(),
                v@ == self.entries@.take(i as int),
            decreases n - i,
        {
            v.push(self.entries[i]);
            proof {
                assert(v@ =~= self.entries@.take(i + 1 as int));
            }
            i = i + 1;
        }
        proof {
            assert(v@ =~= self.entries@);
        }
        let r = ValueMap { entries: v };
        proof {
            assert(r.as_map() == self.as_map());
            if self.values_valid() {
                assert forall|k: u64| #[trigger] r.as_map().contains_key(k) implies r.as_map()[k].valid() by {
                    assert(self.as_map().contains_key(k));
                }
            }
            if self.values_positive() {
                assert forall|k: u64| #[trigger] r.as_map().contains_key(k) implies r.as_map()[k].raw > 0 by {
                    assert(self.as_map().contains_key(k));
                }
            }
        }
        r
    }
}

} // verus!
