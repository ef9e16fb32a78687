//! The skip list seen as an ordered set of keys: the public face of
//! `SkipListInner`, with every change made through exclusive access.
use vstd::prelude::*;

use crate::list::{lemma_level_zero_sorted, lemma_levels_nested, lemma_occupied_is_tallest, SkipListInner};

verus! {

/// An ordered set of `i32` keys kept in a skip list.
pub struct SkipList {
    inner: SkipListInner,
}

impl View for SkipList {
    type V = Set<i32>;

    /// The keys held.
    closed spec fn view(&self) -> Set<i32> {
        self.inner.keys()
    }
}

impl SkipList {
    /// The list is well formed; every operation keeps it so.
    pub closed spec fn wf(&self) -> bool {
        self.inner.wf()
    }

    /// The keys in level-0 order.
    pub closed spec fn entries(&self) -> Seq<i32> {
        self.inner.entries()
    }

    /// The heights of the entries, in level-0 order.
    pub closed spec fn heights(&self) -> Seq<nat> {
        self.inner.heights()
    }

    /// The keys present at `level`, in order.
    pub closed spec fn level_view(&self, level: int) -> Seq<i32> {
        self.inner.level_view(level)
    }

    /// The bound on heights fixed at construction.
    pub closed spec fn max_level(&self) -> nat {
        self.inner.max_level_view()
    }

    /// The occupied height.
    pub closed spec fn occupied(&self) -> nat {
        self.inner.occupied()
    }

    /// An empty list whose entries are at most `max_level` high, drawing
    /// heights from a generator seeded with `seed`.
    pub fn new(seed: u32, max_level: usize) -> (r: SkipList)
        requires
            1 <= max_level,
        ensures
            r.wf(),
            r@ == Set::<i32>::empty(),
            r.entries() == Seq::<i32>::empty(),
            r.max_level() == max_level,
            r.occupied() == 1,
    {
        let inner = SkipListInner::new(seed, max_level);
        assert(inner.keys() =~= Set::<i32>::empty());
        SkipList { inner }
    }

    /// Whether the list holds no key.
    pub fn empty(&self) -> (r: bool)
        requires
            self.wf(),
        ensures
            r == (self@.len() == 0),
            r == (self.entries().len() == 0),
    {
        proof {
            self.lemma_len();
        }
        self.inner.empty()
    }

    /// The number of keys held.
    pub fn size(&self) -> (r: usize)
        requires
            self.wf(),
        ensures
            r == self@.len(),
            r == self.entries().len(),
    {
        proof {
            self.lemma_len();
        }
        self.inner.size()
    }

    /// Adds `key`; `true` iff it was not held. The new entry gets a drawn
    /// height between 1 and the maximum level; the other entries keep theirs.
    pub fn insert(&mut self, key: i32) -> (r: bool)
        requires
            old(self).wf(),
        ensures
            r == !old(self)@.contains(key),
            final(self)@ == old(self)@.insert(key),
            final(self).entries().len() == old(self).entries().len() + if r {
                1int
            } else {
                0int
            },
            !r ==> *final(self) == *old(self),
            r ==> exists|i: int, h: int|
                {
                    &&& 0 <= i <= old(self).entries().len()
                    &&& 1 <= h <= old(self).max_level()
                    &&& final(self).entries() == old(self).entries().insert(i, key)
                    &&& final(self).heights() == #[trigger] old(self).heights().insert(i, h as nat)
                    &&& final(self).occupied() == if h > old(self).occupied() {
                        h
                    } else {
                        old(self).occupied() as int
                    }
                },
            final(self).max_level() == old(self).max_level(),
            final(self).wf(),
    {
        let ghost before = self.inner;
        let r = self.inner.insert(key);
        proof {
            if r {
                let (i, h) = choose|i: int, h: int|
                    {
                        &&& 0 <= i <= before.entries().len()
                        &&& 1 <= h <= before.max_level_view()
                        &&& self.inner.entries() == before.entries().insert(i, key)
                        &&& self.inner.heights() == #[trigger] before.heights().insert(i, h as nat)
                        &&& self.inner.occupied() == if h > before.occupied() {
                            h
                        } else {
                            before.occupied() as int
                        }
                    };
                assert(self.heights() == old(self).heights().insert(i, h as nat));
            }
        }
        r
    }

    /// Removes `key`; `true` iff it was held. The other entries keep their
    /// heights, and the occupied height comes down to the tallest left.
    pub fn erase(&mut self, key: i32) -> (r: bool)
        requires
            old(self).wf(),
        ensures
            r == old(self)@.contains(key),
            final(self)@ == old(self)@.remove(key),
            final(self).entries().len() == old(self).entries().len() - if r {
                1int
            } else {
                0int
            },
            !r ==> *final(self) == *old(self),
            r ==> exists|d: int|
                {
                    &&& 0 <= d < old(self).entries().len()
                    &&& old(self).entries()[d] == key
                    &&& final(self).entries() == #[trigger] old(self).entries().remove(d)
                    &&& final(self).heights() == old(self).heights().remove(d)
                },
            final(self).max_level() == old(self).max_level(),
            final(self).wf(),
    {
        let ghost before = self.inner;
        let r = self.inner.erase(key);
        proof {
            if r {
                let d = choose|d: int|
                    {
                        &&& 0 <= d < before.entries().len()
                        &&& before.entries()[d] == key
                        &&& self.inner.entries() == #[trigger] before.entries().remove(d)
                        &&& self.inner.heights() == before.heights().remove(d)
                    };
                assert(self.entries() == old(self).entries().remove(d));
            }
        }
        r
    }

    /// Whether `key` is held.
    pub fn contains(&self, key: i32) -> (r: bool)
        requires
            self.wf(),
        ensures
            r == self@.contains(key),
    {
        self.inner.contains(key)
    }

    /// Removes every key.
    pub fn clear(&mut self)
        requires
            old(self).wf(),
        ensures
            final(self)@ == Set::<i32>::empty(),
            final(self).entries() == Seq::<i32>::empty(),
            final(self).max_level() == old(self).max_level(),
            final(self).occupied() == 1,
            final(self).wf(),
    {
        self.inner.clear();
        assert(self.inner.keys() =~= Set::<i32>::empty());
    }

    /// The occupied height: the height of the tallest entry, 1 when empty.
    pub fn occupied_height(&self) -> (r: usize)
        requires
            self.wf(),
        ensures
            r == self.occupied(),
            1 <= r <= self.max_level(),
    {
        proof {
            lemma_occupied_is_tallest(&self.inner);
        }
        self.inner.occupied_height()
    }

    /// The entries in level-0 order, each as its key and its height.
    pub fn listing(&self) -> (r: Vec<(i32, usize)>)
        requires
            self.wf(),
        ensures
            r@.len() == self.entries().len(),
            forall|j: int| 0 <= j < r@.len() ==> (#[trigger] r@[j]).0 == self.entries()[j] && r@[j].1 as nat == self.heights()[j],
            forall|i: int, j: int| 0 <= i < j < r@.len() ==> r@[i].0 < r@[j].0,
            forall|j: int| 0 <= j < r@.len() ==> 1 <= #[trigger] r@[j].1 <= self.occupied(),
    {
        proof {
            lemma_level_zero_sorted(&self.inner);
            lemma_occupied_is_tallest(&self.inner);
        }
        let r = self.inner.listing();
        proof {
            assert forall|j: int| 0 <= j < r@.len() implies 1 <= #[trigger] r@[j].1 <= self.occupied() by {
                assert(r@[j].1 as nat == self.heights()[j]);
            }
        }
        r
    }

    /// The keys linked at `level`, in the order the links visit them; none
    /// above the list's levels.
    pub fn level_listing(&self, level: usize) -> (r: Vec<i32>)
        requires
            self.wf(),
        ensures
            r@ == self.level_view(level as int),
    {
        self.inner.level_listing(level)
    }

    /// The number of keys is the number of entries.
    proof fn lemma_len(&self)
        requires
            self.inner.wf(),
        ensures
            self@.len() == self.entries().len(),
    {
        lemma_level_zero_sorted(&self.inner);
        self.inner.entries().unique_seq_to_set();
    }
}

/// Level 0 holds the keys in strictly increasing order, without a
/// duplicate, and exactly the keys held; so does any walk of the list after
/// any sequence of operations.
pub proof fn lemma_sorted_keys(list: &SkipList)
    requires
        list.wf(),
    ensures
        forall|i: int, j: int|
            0 <= i < j < list.entries().len() ==> list.entries()[i] < list.entries()[j],
        list.entries().no_duplicates(),
        list.entries().to_set() == list@,
{
    lemma_level_zero_sorted(&list.inner);
}

/// The keys present at a higher level are present at every lower level, and
/// level 0 holds every key, in order.
pub proof fn lemma_nested_levels(list: &SkipList, lower: int, higher: int)
    requires
        list.wf(),
        0 <= lower < higher,
    ensures
        list.level_view(higher).to_set().subset_of(list.level_view(lower).to_set()),
        list.level_view(0) == list.entries(),
{
    lemma_levels_nested(&list.inner, lower, higher);
}

/// The occupied height is the height of the tallest entry (1 when no entry
/// is taller): erasing the tallest entries brings it down to the new
/// maximum.
pub proof fn lemma_tallest(list: &SkipList)
    requires
        list.wf(),
    ensures
        list.heights().len() == list.entries().len(),
        1 <= list.occupied() <= list.max_level(),
        forall|j: int| 0 <= j < list.heights().len() ==> 1 <= #[trigger] list.heights()[j] <= list.occupied(),
        list.occupied() == 1 || exists|j: int| 0 <= j < list.heights().len() && #[trigger] list.heights()[j] == list.occupied(),
{
    lemma_occupied_is_tallest(&list.inner);
    if list.occupied() != 1 {
        let j = choose|j: int| 0 <= j < list.inner.heights().len() && #[trigger] list.inner.heights()[j] == list.inner.occupied();
        assert(list.heights()[j] == list.occupied());
    }
}

/// The change in the number of entries made by a run of inserts (`true` in
/// `is_insert`) and erases, given what each call returned.
pub open spec fn net_change(is_insert: Seq<bool>, results: Seq<bool>) -> int
    decreases is_insert.len(),
{
    if is_insert.len() == 0 || results.len() == 0 {
        0
    } else {
        net_change(is_insert.drop_last(), results.drop_last()) + if !results.last() {
            0int
        } else if is_insert.last() {
            1int
        } else {
            -1int
        }
    }
}

/// A key just inserted is held, and erased right after it is not.
pub proof fn lemma_insert_then_erase(
    before: SkipList,
    inserted: SkipList,
    erased: SkipList,
    k: i32,
)
    requires
        inserted@ == before@.insert(k),
        erased@ == inserted@.remove(k),
    ensures
        inserted@.contains(k),
        !erased@.contains(k),
{
    assert(inserted@.contains(k));
    assert(!erased@.contains(k));
}

/// Inserting a key a second time finds it held: the second call returns
/// `false` and the number of entries stays as it was.
pub proof fn lemma_insert_twice(
    before: SkipList,
    once: SkipList,
    twice: SkipList,
    k: i32,
    second: bool,
)
    requires
        once@ == before@.insert(k),
        second == !once@.contains(k),
        !second ==> twice.entries() == once.entries(),
    ensures
        !second,
        twice.entries().len() == once.entries().len(),
{
    assert(once@.contains(k));
}

/// Over a run of inserts and erases, the number of entries changes by the
/// number of inserts that returned `true` less the number of erases that
/// returned `true`; from an empty list, N successful inserts and M
/// successful erases leave N - M entries.
pub proof fn lemma_size_counts(states: Seq<SkipList>, is_insert: Seq<bool>, results: Seq<bool>)
    requires
        states.len() == is_insert.len() + 1,
        results.len() == is_insert.len(),
        forall|i: int|
            0 <= i < is_insert.len() ==> #[trigger] states[i + 1].entries().len()
                == states[i].entries().len() + if !results[i] {
                0int
            } else if is_insert[i] {
                1int
            } else {
                -1int
            },
    ensures
        states.last().entries().len() == states[0].entries().len() + net_change(is_insert, results),
    decreases is_insert.len(),
{
    let n = is_insert.len();
    if n > 0 {
        let s2 = states.drop_last();
        let k2 = is_insert.drop_last();
        let r2 = results.drop_last();
        assert forall|i: int| 0 <= i < k2.len() implies #[trigger] s2[i + 1].entries().len()
            == s2[i].entries().len() + if !r2[i] {
            0int
        } else if k2[i] {
            1int
        } else {
            -1int
        } by {
            assert(s2[i + 1] == states[i + 1]);
            assert(states[i + 1].entries().len() == states[i].entries().len() + if !results[i] {
                0int
            } else if is_insert[i] {
                1int
            } else {
                -1int
            });
        }
        lemma_size_counts(s2, k2, r2);
        assert(states[n - 1 + 1].entries().len() == states[n - 1].entries().len() + if !results[n - 1] {
            0int
        } else if is_insert[n - 1] {
            1int
        } else {
            -1int
        });
    }
}

/// Inserting distinct keys one after another into an empty list, in any
/// order (as the atomic inserts of several threads on disjoint keys come
/// out), succeeds every time and leaves exactly those keys, as many as there
/// are.
pub proof fn lemma_distinct_inserts(states: Seq<SkipList>, ks: Seq<i32>, results: Seq<bool>)
    requires
        states.len() == ks.len() + 1,
        results.len() == ks.len(),
        ks.no_duplicates(),
        states[0].entries().len() == 0,
        forall|i: int|
            0 <= i < ks.len() ==> {
                &&& #[trigger] states[i + 1]@ == states[i]@.insert(ks[i])
                &&& results[i] == !states[i]@.contains(ks[i])
                &&& states[i + 1].entries().len() == states[i].entries().len() + if results[i] {
                    1int
                } else {
                    0int
                }
            },
    ensures
        forall|i: int| 0 <= i < ks.len() ==> #[trigger] results[i],
        states.last()@ == ks.to_set(),
        states.last().entries().len() == ks.len(),
    decreases ks.len(),
{
    let n = ks.len();
    if n == 0 {
        assert(states[0]@ =~= ks.to_set());
    } else {
        let s2 = states.drop_last();
        let k2 = ks.drop_last();
        let r2 = results.drop_last();
        assert forall|i: int| 0 <= i < k2.len() implies {
            &&& #[trigger] s2[i + 1]@ == s2[i]@.insert(k2[i])
            &&& r2[i] == !s2[i]@.contains(k2[i])
            &&& s2[i + 1].entries().len() == s2[i].entries().len() + if r2[i] {
                1int
            } else {
                0int
            }
        } by {
            assert(states[i + 1]@ == states[i]@.insert(ks[i]));
            assert(s2[i] == states[i]);
            assert(s2[i + 1] == states[i + 1]);
            assert(k2[i] == ks[i]);
            assert(r2[i] == results[i]);
        }
        lemma_distinct_inserts(s2, k2, r2);
        let last = ks[n - 1];
        assert(states[n - 1 + 1]@ == states[n - 1]@.insert(ks[n - 1]));
        assert(!k2.contains(last)) by {
            if k2.contains(last) {
                let j = choose|j: int| 0 <= j < k2.len() && k2[j] == last;
                assert(ks[j] == ks[n - 1]);
            }
        }
        assert(!states[n - 1]@.contains(last));
        assert(!states[n - 1]@.contains(last));
        assert forall|i: int| 0 <= i < ks.len() implies #[trigger] results[i] by {
            if i < n - 1 {
                assert(r2[i]);
            }
        }
        assert(states.last()@ =~= ks.to_set()) by {
            assert forall|k: i32| ks.to_set().contains(k) <==> k2.to_set().insert(last).contains(k) by {
                if ks.contains(k) {
                    let j = choose|j: int| 0 <= j < ks.len() && ks[j] == k;
                    if j < n - 1 {
                        assert(k2[j] == k);
                    }
                }
                if k2.contains(k) {
                    let j = choose|j: int| 0 <= j < k2.len() && k2[j] == k;
                    assert(ks[j] == k);
                }
                if k == last {
                    assert(ks[n - 1] == k);
                }
            }
        }
    }
}

/// Erasing distinct held keys one after another, in any order (as the
/// atomic erases of several threads on disjoint keys come out), succeeds
/// every time and leaves exactly the other keys: N keys less the K erased.
pub proof fn lemma_distinct_erases(states: Seq<SkipList>, ks: Seq<i32>, results: Seq<bool>)
    requires
        states.len() == ks.len() + 1,
        results.len() == ks.len(),
        ks.no_duplicates(),
        forall|i: int| 0 <= i < ks.len() ==> states[0]@.contains(#[trigger] ks[i]),
        forall|i: int|
            0 <= i < ks.len() ==> {
                &&& #[trigger] states[i + 1]@ == states[i]@.remove(ks[i])
                &&& results[i] == states[i]@.contains(ks[i])
                &&& states[i + 1].entries().len() == states[i].entries().len() - if results[i] {
                    1int
                } else {
                    0int
                }
            },
    ensures
        forall|i: int| 0 <= i < ks.len() ==> #[trigger] results[i],
        states.last()@ == states[0]@.difference(ks.to_set()),
        states.last().entries().len() == states[0].entries().len() - ks.len(),
    decreases ks.len(),
{
    let n = ks.len();
    if n == 0 {
        assert(states[0]@ =~= states[0]@.difference(ks.to_set()));
    } else {
        let s2 = states.drop_last();
        let k2 = ks.drop_last();
        let r2 = results.drop_last();
        assert forall|i: int| 0 <= i < k2.len() implies {
            &&& #[trigger] s2[i + 1]@ == s2[i]@.remove(k2[i])
            &&& r2[i] == s2[i]@.contains(k2[i])
            &&& s2[i + 1].entries().len() == s2[i].entries().len() - if r2[i] {
                1int
            } else {
                0int
            }
        } by {
            assert(states[i + 1]@ == states[i]@.remove(ks[i]));
            assert(s2[i] == states[i]);
            assert(s2[i + 1] == states[i + 1]);
            assert(k2[i] == ks[i]);
            assert(r2[i] == results[i]);
        }
        assert forall|i: int| 0 <= i < k2.len() implies s2[0]@.contains(#[trigger] k2[i]) by {
            assert(states[0]@.contains(ks[i]));
        }
        lemma_distinct_erases(s2, k2, r2);
        let last = ks[n - 1];
        assert(states[n - 1 + 1]@ == states[n - 1]@.remove(ks[n - 1]));
        assert(!k2.contains(last)) by {
            if k2.contains(last) {
                let j = choose|j: int| 0 <= j < k2.len() && k2[j] == last;
                assert(ks[j] == ks[n - 1]);
            }
        }
        assert(states[0]@.contains(ks[n - 1]));
        assert(states[n - 1]@.contains(last));
        assert(states[n - 1]@.contains(last));
        assert forall|i: int| 0 <= i < ks.len() implies #[trigger] results[i] by {
            if i < n - 1 {
                assert(r2[i]);
            }
        }
        assert(states.last()@ =~= states[0]@.difference(ks.to_set())) by {
            assert forall|k: i32| ks.to_set().contains(k) <==> k2.to_set().insert(last).contains(k) by {
                if ks.contains(k) {
                    let j = choose|j: int| 0 <= j < ks.len() && ks[j] == k;
                    if j < n - 1 {
                        assert(k2[j] == k);
                    }
                }
                if k2.contains(k) {
                    let j = choose|j: int| 0 <= j < k2.len() && k2[j] == k;
                    assert(ks[j] == k);
                }
                if k == last {
                    assert(ks[n - 1] == k);
                }
            }
        }
    }
}

} // verus!
