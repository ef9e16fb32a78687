//! The sequential skip list. Nodes live in an arena (`nodes`); slot 0 is the
//! header and forward references are arena indices. Retired slots are kept on
//! a free list and reused by later inserts.
use core::cmp::Ordering;
use mt19937::MT19937;
use vstd::prelude::*;

use crate::node::Node;
use crate::oracle::{next_word, seeded_generator};

verus! {

/// The skip list proper, with its arena and links in view; `SkipList` is
/// the same list seen as a set of keys.
pub struct SkipListInner {
    nodes: Vec<Node>,
    free: Vec<usize>,
    max_level: usize,
    height: usize,
    size: usize,
    rng: MT19937,
    /// Arena indices of the entries, in level-0 order.
    order: Ghost<Seq<usize>>,
}

impl SkipListInner {
    // ----- the model -----

    /// Number of entries.
    pub closed spec fn len(&self) -> nat {
        self.order@.len()
    }

    /// Arena index of the node at position `p`; position -1 is the header.
    pub closed spec fn idx(&self, p: int) -> int {
        if p == -1 {
            0
        } else {
            self.order@[p] as int
        }
    }

    /// The node at position `p`.
    pub closed spec fn node_at(&self, p: int) -> Node {
        self.nodes@[self.idx(p)]
    }

    /// Number of levels the node at position `p` occupies.
    pub closed spec fn h(&self, p: int) -> int {
        self.node_at(p).links_view().len() as int
    }

    /// Key of the entry at position `p`.
    pub closed spec fn key_at(&self, p: int) -> i32 {
        match self.node_at(p) {
            Node::Inner { key, .. } => key,
            _ => 0,
        }
    }

    /// Position `q` follows position `p` directly at `level`.
    pub closed spec fn is_succ(&self, p: int, q: int, level: int) -> bool {
        &&& p < q < self.len()
        &&& self.h(q) > level
        &&& forall|r: int| p < r < q ==> self.h(r) <= level
    }

    /// The forward reference of position `p` at `level` is right.
    pub closed spec fn link_ok(&self, p: int, level: int) -> bool {
        match self.node_at(p).link(level) {
            None => forall|r: int| p < r < self.len() ==> self.h(r) <= level,
            Some(t) => exists|q: int| self.is_succ(p, q, level) && #[trigger] self.order@[q] == t,
        }
    }

    /// The keys in level-0 order.
    pub closed spec fn entries(&self) -> Seq<i32> {
        Seq::new(self.len(), |j: int| self.key_at(j))
    }

    /// The heights of the entries, in level-0 order.
    pub closed spec fn heights(&self) -> Seq<nat> {
        Seq::new(self.len(), |j: int| self.h(j) as nat)
    }

    /// The set of keys held.
    pub open spec fn keys(&self) -> Set<i32> {
        self.entries().to_set()
    }

    /// The keys of the entries before position `upto` that are taller than
    /// `level`, in level-0 order.
    pub closed spec fn level_keys(&self, level: int, upto: int) -> Seq<i32>
        decreases upto,
    {
        if upto <= 0 {
            Seq::empty()
        } else if self.h(upto - 1) > level {
            self.level_keys(level, upto - 1).push(self.key_at(upto - 1))
        } else {
            self.level_keys(level, upto - 1)
        }
    }

    /// The keys present at `level`, in order: those of the entries taller
    /// than it.
    pub closed spec fn level_view(&self, level: int) -> Seq<i32> {
        self.level_keys(level, self.len() as int)
    }

    /// The bound on heights fixed at construction.
    pub closed spec fn max_level_view(&self) -> nat {
        self.max_level as nat
    }

    /// The occupied height.
    pub closed spec fn occupied(&self) -> nat {
        self.height as nat
    }

    /// Well-formedness: the arena and its links are right and the occupied
    /// height is the height of the tallest entry (1 when there is none).
    pub closed spec fn wf(&self) -> bool {
        &&& self.wf_core()
        &&& self.height == 1 || exists|j: int| 0 <= j < self.len() && #[trigger] self.h(j) == self.height
    }

    /// The arena and its links are right; the occupied height bounds every
    /// entry's height.
    closed spec fn wf_core(&self) -> bool {
        &&& 1 <= self.max_level
        &&& self.nodes@.len() >= 1
        &&& self.nodes@[0] is Header
        &&& self.nodes@[0].links_view().len() == self.max_level
        &&& self.size == self.len()
        &&& self.nodes@.len() == 1 + self.len() + self.free@.len()
        &&& forall|j: int|
            0 <= j < self.len() ==> {
                &&& 1 <= #[trigger] self.order@[j] < self.nodes@.len()
                &&& self.nodes@[self.order@[j] as int] is Inner
            }
        &&& forall|j: int| 0 <= j < self.len() ==> 1 <= #[trigger] self.h(j) <= self.height
        &&& forall|i: int, j: int| 0 <= i < j < self.len() ==> self.key_at(i) < self.key_at(j)
        &&& forall|f: int|
            0 <= f < self.free@.len() ==> {
                &&& 1 <= #[trigger] self.free@[f] < self.nodes@.len()
                &&& self.nodes@[self.free@[f] as int] is Nil
            }
        &&& forall|f: int, g: int| 0 <= f < g < self.free@.len() ==> self.free@[f] != self.free@[g]
        &&& 1 <= self.height <= self.max_level
        &&& forall|p: int, level: int|
            -1 <= p < self.len() && 0 <= level < self.h(p) ==> #[trigger] self.link_ok(p, level)
    }

    // ----- construction and queries -----

    /// An empty list whose entries are at most `max_level` high, drawing
    /// heights from a generator seeded with `seed`.
    pub fn new(seed: u32, max_level: usize) -> (r: SkipListInner)
        requires
            1 <= max_level,
        ensures
            r.wf(),
            r.entries() == Seq::<i32>::empty(),
            r.max_level_view() == max_level,
            r.occupied() == 1,
    {
        let header = Node::new_header(max_level);
        let mut nodes: Vec<Node> = Vec::new();
        nodes.push(header);
        let r = SkipListInner {
            nodes,
            free: Vec::new(),
            max_level,
            height: 1,
            size: 0,
            rng: seeded_generator(seed),
            order: Ghost(Seq::empty()),
        };
        assert(r.entries() =~= Seq::<i32>::empty());
        assert forall|p: int, level: int|
            -1 <= p < r.len() && 0 <= level < r.h(p) implies #[trigger] r.link_ok(p, level) by {
            assert(r.node_at(p).link(level) is None);
        }
        r
    }

    /// Whether the list holds no entry.
    pub fn empty(&self) -> (r: bool)
        requires
            self.wf(),
        ensures
            r == (self.entries().len() == 0),
    {
        self.size == 0
    }

    /// The number of entries.
    pub fn size(&self) -> (r: usize)
        requires
            self.wf(),
        ensures
            r == self.entries().len(),
    {
        self.size
    }

    /// For every level, the last node before `key` at that level (by arena
    /// index), and whether `key` is held. The ghost result gives the
    /// positions of those predecessors.
    fn trace(&self, key: i32) -> (r: (Vec<usize>, bool, Ghost<Seq<int>>))
        requires
            self.wf(),
        ensures
            r.0@.len() == self.max_level,
            r.2@.len() == self.max_level,
            r.1 == self.entries().contains(key),
            forall|l: int|
                0 <= l < self.max_level ==> {
                    let p = #[trigger] r.2@[l];
                    &&& -1 <= p < self.len()
                    &&& r.0@[l] == self.idx(p)
                    &&& p == -1 || (self.h(p) > l && self.key_at(p) < key)
                    &&& forall|q: int| p < q < self.len() && self.h(q) > l ==> key <= self.key_at(q)
                },
    {
        let max_level = self.max_level;
        let mut preds: Vec<usize> = Vec::with_capacity(max_level);
        let mut i: usize = 0;
        while i < max_level
            invariant
                i <= max_level,
                preds@.len() == i,
            decreases max_level - i,
        {
            preds.push(0);
            i = i + 1;
        }
        let ghost mut pos: Seq<int> = Seq::new(max_level as nat, |l: int| -1);
        let ghost n = self.len();
        let mut cur: usize = 0;
        let ghost mut p: int = -1;
        let mut found = false;
        let mut lvl: usize = max_level;
        while lvl > 0
            invariant
                self.wf(),
                max_level == self.max_level,
                n == self.len(),
                lvl <= max_level,
                preds@.len() == max_level,
                pos.len() == max_level,
                -1 <= p < n,
                cur == self.idx(p),
                p == -1 || (self.h(p) >= lvl && self.key_at(p) < key),
                found ==> self.entries().contains(key),
                lvl == 0 && self.entries().contains(key) ==> found,
                forall|l: int|
                    lvl <= l < max_level ==> {
                        let pl = #[trigger] pos[l];
                        &&& -1 <= pl < n
                        &&& preds@[l] == self.idx(pl)
                        &&& pl == -1 || (self.h(pl) > l && self.key_at(pl) < key)
                        &&& forall|q: int| pl < q < n && self.h(q) > l ==> key <= self.key_at(q)
                    },
            decreases lvl,
        {
            let level = lvl - 1;
            loop
                invariant
                    self.wf(),
                    n == self.len(),
                    level < max_level == self.max_level,
                    -1 <= p < n,
                    cur == self.idx(p),
                    p == -1 || (self.h(p) > level && self.key_at(p) < key),
                    found ==> self.entries().contains(key),
                ensures
                    -1 <= p < n,
                    cur == self.idx(p),
                    p == -1 || (self.h(p) > level && self.key_at(p) < key),
                    found ==> self.entries().contains(key),
                    forall|q: int| p < q < n && self.h(q) > level ==> key <= self.key_at(q),
                    level == 0 && self.entries().contains(key) ==> found,
                decreases n - p,
            {
                assert(self.link_ok(p, level as int));
                match self.nodes[cur].next(level) {
                    None => {
                        proof {
                            self.lemma_nothing_after(p, level as int, key);
                        }
                        break;
                    },
                    Some(t) => {
                        let ghost q = choose|q: int| self.is_succ(p, q, level as int) && #[trigger] self.order@[q] == t;
                        match self.nodes[t].compare_key(key) {
                            Some(Ordering::Less) => {
                                cur = t;
                                proof {
                                    p = q;
                                }
                            },
                            Some(Ordering::Equal) => {
                                found = true;
                                proof {
                                    assert(self.entries()[q] == key);
                                    self.lemma_stop_at(p, q, level as int, key);
                                }
                                break;
                            },
                            _ => {
                                proof {
                                    self.lemma_stop_at(p, q, level as int, key);
                                }
                                break;
                            },
                        }
                    },
                }
            }
            preds.set(level, cur);
            proof {
                pos = pos.update(level as int, p);
            }
            lvl = level;
        }
        (preds, found, Ghost(pos))
    }

    /// Whether `key` is held.
    pub fn contains(&self, key: i32) -> (r: bool)
        requires
            self.wf(),
        ensures
            r == self.entries().contains(key),
    {
        self.find(key).is_some()
    }

    /// The arena index of the entry holding `key`, if any. The walk starts at
    /// the occupied height and stops at the first match.
    fn find(&self, key: i32) -> (r: Option<usize>)
        requires
            self.wf(),
        ensures
            r is Some <==> self.entries().contains(key),
            r matches Some(t) ==> self.nodes@[t as int].key_view() == Some(key),
    {
        let ghost n = self.len();
        let mut cur: usize = 0;
        let ghost mut p: int = -1;
        let mut lvl: usize = self.height;
        while lvl > 0
            invariant
                self.wf(),
                n == self.len(),
                lvl <= self.height,
                -1 <= p < n,
                cur == self.idx(p),
                p == -1 || (self.h(p) >= lvl && self.key_at(p) < key),
                lvl == 0 ==> !self.entries().contains(key),
            decreases lvl,
        {
            let level = lvl - 1;
            loop
                invariant
                    self.wf(),
                    n == self.len(),
                    level < self.height,
                    -1 <= p < n,
                    cur == self.idx(p),
                    p == -1 || (self.h(p) > level && self.key_at(p) < key),
                ensures
                    -1 <= p < n,
                    cur == self.idx(p),
                    p == -1 || (self.h(p) > level && self.key_at(p) < key),
                    level == 0 ==> !self.entries().contains(key),
                decreases n - p,
            {
                assert(self.link_ok(p, level as int));
                match self.nodes[cur].next(level) {
                    None => {
                        proof {
                            self.lemma_nothing_after(p, level as int, key);
                        }
                        break;
                    },
                    Some(t) => {
                        let ghost q = choose|q: int| self.is_succ(p, q, level as int) && #[trigger] self.order@[q] == t;
                        match self.nodes[t].compare_key(key) {
                            Some(Ordering::Less) => {
                                cur = t;
                                proof {
                                    p = q;
                                }
                            },
                            Some(Ordering::Equal) => {
                                assert(self.entries()[q] == key);
                                return Some(t);
                            },
                            _ => {
                                proof {
                                    self.lemma_stop_at(p, q, level as int, key);
                                }
                                break;
                            },
                        }
                    },
                }
            }
            lvl = level;
        }
        None
    }

    /// A height for a new entry: 1, plus one for each success of a coin that
    /// comes up with chance 1/4 (a word divisible by 4), stopping at the
    /// first failure or at the maximum level. The ghost result is the words
    /// drawn.
    fn random_height(&mut self) -> (r: (usize, Ghost<Seq<u32>>))
        requires
            old(self).wf(),
        ensures
            is_drawn_height(r.1@, old(self).max_level as int, r.0 as int),
            final(self).nodes == old(self).nodes,
            final(self).free == old(self).free,
            final(self).order == old(self).order,
            final(self).max_level == old(self).max_level,
            final(self).height == old(self).height,
            final(self).size == old(self).size,
    {
        let mut height: usize = 1;
        let ghost mut words: Seq<u32> = Seq::empty();
        loop
            invariant_except_break
                1 <= height <= self.max_level,
                words.len() == height - 1,
                forall|i: int| 0 <= i < words.len() ==> #[trigger] words[i] % 4 == 0,
            invariant
                self.nodes == old(self).nodes,
                self.free == old(self).free,
                self.order == old(self).order,
                self.max_level == old(self).max_level,
                self.height == old(self).height,
                self.size == old(self).size,
            ensures
                is_drawn_height(words, self.max_level as int, height as int),
            decreases self.max_level - height,
        {
            if height >= self.max_level {
                break;
            }
            let word = next_word(&mut self.rng);
            proof {
                words = words.push(word);
            }
            if word % 4 != 0 {
                break;
            }
            height = height + 1;
        }
        (height, Ghost(words))
    }

    /// Adds `key`; `true` iff it was not held. The new entry gets a drawn
    /// height, is linked in at each of its levels after its predecessor
    /// there, and may raise the occupied height.
    pub fn insert(&mut self, key: i32) -> (r: bool)
        requires
            old(self).wf(),
        ensures
            final(self).wf(),
            r == !old(self).entries().contains(key),
            final(self).keys() == old(self).keys().insert(key),
            final(self).entries().len() == old(self).entries().len() + if r {
                1int
            } else {
                0int
            },
            !r ==> *final(self) == *old(self),
            r ==> exists|i: int, h: int|
                {
                    &&& 0 <= i <= old(self).entries().len()
                    &&& 1 <= h <= old(self).max_level_view()
                    &&& final(self).entries() == old(self).entries().insert(i, key)
                    &&& final(self).heights() == #[trigger] old(self).heights().insert(i, h as nat)
                    &&& final(self).occupied() == if h > old(self).occupied() {
                        h
                    } else {
                        old(self).occupied() as int
                    }
                },
            final(self).max_level_view() == old(self).max_level_view(),
            final(self).occupied() >= old(self).occupied(),
    {
        let (preds, found, Ghost(pp)) = self.trace(key);
        if found {
            return false;
        }
        let ghost s0 = *self;
        let ghost ins = pp[0] + 1;
        let (new_height, _drawn) = self.random_height();
        if new_height > self.height {
            self.height = new_height;
        }
        let arena_len = self.nodes.len();
        let new_idx: usize = match self.free.pop() {
            Some(f) => {
                self.nodes.set(f, Node::new(key, new_height));
                f
            },
            None => {
                self.nodes.push(Node::new(key, new_height));
                arena_len
            },
        };
        proof {
            s0.lemma_order_distinct();
            assert forall|j: int| 0 <= j < s0.len() implies s0.order@[j] != new_idx by {
                if new_idx < arena_len {
                    assert(s0.free@[s0.free@.len() - 1] == new_idx);
                }
            }
        }
        let mut i: usize = 0;
        while i < new_height
            invariant
                i <= new_height <= s0.max_level,
                preds@.len() == s0.max_level,
                pp.len() == s0.max_level,
                forall|l: int| 0 <= l < s0.max_level ==> preds@[l] == s0.idx(#[trigger] pp[l]),
                forall|l: int| 0 <= l < s0.max_level ==> -1 <= #[trigger] pp[l] < s0.len() && (pp[l] == -1 || s0.h(pp[l]) > l),
                forall|j: int| 0 <= j < s0.len() ==> s0.order@[j] != new_idx,
                s0.wf(),
                self.max_level == s0.max_level,
                new_idx < arena_len ==> s0.free@.len() > 0,
                self.free@ == if new_idx < arena_len { s0.free@.drop_last() } else { s0.free@ },
                self.height == if new_height > s0.height { new_height } else { s0.height },
                self.size == s0.size,
                self.order == s0.order,
                1 <= new_idx < self.nodes@.len(),
                self.nodes@.len() == if new_idx < arena_len { arena_len as int } else { arena_len + 1 },
                new_idx <= arena_len == s0.nodes@.len(),
                self.nodes@[new_idx as int] is Inner,
                self.nodes@[new_idx as int].key_view() == Some(key),
                self.nodes@[new_idx as int].links_view().len() == i,
                forall|l: int| 0 <= l < i ==> #[trigger] self.nodes@[new_idx as int].links_view()[l]
                    == s0.node_at(pp[l]).link(l),
                Self::framed(self.nodes@, s0.nodes@, preds@, new_idx, i as int),
            decreases new_height - i,
        {
            let pred = preds[i];
            proof {
                let pi = pp[i as int];
                s0.lemma_idx_range(pi);
                if pi != -1 {
                    assert(s0.order@[pi] != new_idx);
                }
                assert(pred != new_idx);
                assert(self.nodes@[pred as int].same_kind(&s0.nodes@[pred as int]));
                assert(s0.node_at(pi).links_view().len() > i);
                assert(self.nodes@[pred as int].links_view()[i as int] == s0.node_at(pi).links_view()[i as int]);
            }
            let ghost before = self.nodes@;
            let next = self.nodes[pred].next(i);
            self.nodes[new_idx].set_next(i, next);
            let ghost mid = self.nodes@;
            self.nodes[pred].set_next(i, Some(new_idx));
            proof {
                assert(Self::framed(mid, s0.nodes@, preds@, new_idx, i as int)) by {
                    Self::lemma_framed_grow(before, mid, s0.nodes@, preds@, new_idx, i as int);
                }
                assert(self.nodes@[pred as int].links_view() =~= mid[pred as int].links_view().update(
                    i as int,
                    Some(new_idx),
                ));
                Self::lemma_framed_step(mid, self.nodes@, s0.nodes@, preds@, new_idx, i as int);
            }
            assert(Self::framed(self.nodes@, s0.nodes@, preds@, new_idx, i + 1));
            i = i + 1;
        }
        self.order = Ghost(s0.order@.insert(ins, new_idx));
        assert(s0.size < arena_len);
        self.size = self.size + 1;
        proof {
            s0.lemma_insert_links(*self, pp, preds@, key, new_idx, new_height as int);
            assert(self.entries() =~= s0.entries().insert(ins, key));
            assert(self.heights() =~= s0.heights().insert(ins, new_height as nat));
            s0.lemma_keys_insert(*self, ins, key);
        }
        true
    }

    /// Removes `key`; `true` iff it was held. The entry is unlinked at each
    /// of its levels, its slot retired, and the occupied height trimmed to
    /// the tallest remaining entry.
    pub fn erase(&mut self, key: i32) -> (r: bool)
        requires
            old(self).wf(),
        ensures
            final(self).wf(),
            r == old(self).entries().contains(key),
            final(self).keys() == old(self).keys().remove(key),
            final(self).entries().len() == old(self).entries().len() - if r {
                1int
            } else {
                0int
            },
            !r ==> *final(self) == *old(self),
            r ==> exists|d: int|
                {
                    &&& 0 <= d < old(self).entries().len()
                    &&& old(self).entries()[d] == key
                    &&& final(self).entries() == #[trigger] old(self).entries().remove(d)
                    &&& final(self).heights() == old(self).heights().remove(d)
                },
            final(self).max_level_view() == old(self).max_level_view(),
            final(self).occupied() <= old(self).occupied(),
    {
        let (preds, found, Ghost(pp)) = self.trace(key);
        if !found {
            return false;
        }
        let ghost s0 = *self;
        let ghost del = pp[0] + 1;
        proof {
            s0.lemma_erase_target(pp, key);
            s0.lemma_idx_range(pp[0]);
            assert(s0.h(del) >= 1);
            assert(s0.node_at(pp[0]).link(0) == Some(s0.order@[del]));
            assert(preds@[0] == s0.idx(pp[0]));
            assert(self.nodes@[preds@[0] as int] == s0.node_at(pp[0]));
        }
        let target = self.nodes[preds[0]].next(0).unwrap();
        let target_height = self.nodes[target].height();
        let mut i: usize = 0;
        while i < target_height
            invariant
                s0.wf(),
                s0.preds_ok(pp, key),
                s0.entries().contains(key),
                0 <= del < s0.len(),
                del == pp[0] + 1,
                target == s0.order@[del],
                target_height == s0.h(del),
                i <= target_height <= s0.max_level,
                preds@.len() == s0.max_level,
                forall|l: int| 0 <= l < s0.max_level ==> preds@[l] == s0.idx(#[trigger] pp[l]),
                forall|l: int| 0 <= l < target_height ==> #[trigger] s0.node_at(pp[l]).link(l) == Some(target),
                self.max_level == s0.max_level,
                self.free == s0.free,
                self.height == s0.height,
                self.size == s0.size,
                self.order == s0.order,
                self.nodes@.len() == s0.nodes@.len(),
                self.nodes@[target as int] == s0.nodes@[target as int],
                Self::unlinked(self.nodes@, s0.nodes@, preds@, target, i as int),
            decreases target_height - i,
        {
            let pred = preds[i];
            let ghost before = self.nodes@;
            proof {
                let pi = pp[i as int];
                s0.lemma_idx_range(pi);
                s0.lemma_order_distinct();
                if pi != -1 {
                    assert(s0.order@[pi] != target);
                }
                assert(pred != target);
                assert(Self::unlinked(before, s0.nodes@, preds@, target, i as int));
                assert(before[pred as int].same_kind(&s0.nodes@[pred as int]));
                assert(s0.node_at(pi).links_view().len() > i);
                assert(before[pred as int].links_view()[i as int] == s0.node_at(pi).links_view()[i as int]);
                assert(s0.node_at(pi).link(i as int) == Some(target));
            }
            match self.nodes[pred].next(i) {
                Some(succ) => {
                    if succ == target {
                        let after = self.nodes[target].next(i);
                        self.nodes[pred].set_next(i, after);
                    }
                },
                None => {},
            }
            proof {
                assert(self.nodes@[pred as int].links_view() =~= before[pred as int].links_view().update(
                    i as int,
                    s0.nodes@[target as int].link(i as int),
                ));
                Self::lemma_unlinked_step(before, self.nodes@, s0.nodes@, preds@, target, i as int);
            }
            assert(Self::unlinked(self.nodes@, s0.nodes@, preds@, target, i + 1));
            i = i + 1;
        }
        proof {
            Self::lemma_unlinked_retire(self.nodes@, s0.nodes@, preds@, target, target_height as int);
        }
        self.nodes.set(target, Node::Nil);
        self.free.push(target);
        self.order = Ghost(s0.order@.remove(del));
        self.size = self.size - 1;
        proof {
            s0.lemma_erase_links(*self, pp, preds@, key, target);
            s0.lemma_keys_remove(*self, del, key);
        }
        let ghost s1 = *self;
        let mut height = self.height;
        while height > 1 && self.nodes[0].next(height - 1).is_none()
            invariant
                *self == s1,
                self.wf_core(),
                1 <= height <= self.height,
                forall|j: int| 0 <= j < self.len() ==> #[trigger] self.h(j) <= height,
            decreases height,
        {
            proof {
                assert(self.link_ok(-1, height - 1));
            }
            height = height - 1;
        }
        proof {
            if height > 1 {
                assert(self.link_ok(-1, height - 1));
                let t = self.nodes@[0].link(height - 1)->0;
                let q = choose|q: int| self.is_succ(-1, q, height - 1) && #[trigger] self.order@[q] == t;
                assert(self.h(q) == height);
            }
        }
        self.height = height;
        proof {
            s1.lemma_with_height(*self);
            assert(self.heights() =~= s1.heights());
            assert(s0.entries()[del] == key);
        }
        true
    }

    /// Removes every entry: the header loses all its successors, the arena
    /// shrinks to the header, and the occupied height returns to 1.
    pub fn clear(&mut self)
        requires
            old(self).wf(),
        ensures
            final(self).wf(),
            final(self).entries() == Seq::<i32>::empty(),
            final(self).max_level_view() == old(self).max_level_view(),
            final(self).occupied() == 1,
    {
        self.nodes[0].clear();
        self.nodes.truncate(1);
        self.free.clear();
        self.order = Ghost(Seq::empty());
        self.height = 1;
        self.size = 0;
        proof {
            assert forall|p: int, level: int| -1 <= p < self.len() && 0 <= level < self.h(p)
                implies #[trigger] self.link_ok(p, level) by {
                assert(self.node_at(p).link(level) is None);
            }
        }
        assert(self.entries() =~= Seq::<i32>::empty());
    }

    /// The occupied height.
    pub fn occupied_height(&self) -> (r: usize)
        requires
            self.wf(),
        ensures
            r == self.occupied(),
    {
        self.height
    }

    /// The entries in level-0 order, each as its key and its height.
    pub fn listing(&self) -> (r: Vec<(i32, usize)>)
        requires
            self.wf(),
        ensures
            r@.len() == self.entries().len(),
            forall|j: int| 0 <= j < r@.len() ==> (#[trigger] r@[j]).0 == self.entries()[j] && r@[j].1 as nat == self.heights()[j],
    {
        let ghost n = self.len();
        let mut out: Vec<(i32, usize)> = Vec::new();
        proof {
            self.lemma_level_zero_next(-1);
        }
        let mut next = self.nodes[0].next(0);
        let ghost mut j: int = 0;
        loop
            invariant
                self.wf(),
                n == self.len(),
                0 <= j <= n,
                out@.len() == j,
                forall|i: int| 0 <= i < j ==> (#[trigger] out@[i]).0 == self.entries()[i] && out@[i].1 as nat == self.heights()[i],
                next == if j < n { Some(self.order@[j]) } else { None::<usize> },
            ensures
                out@.len() == n,
                forall|i: int| 0 <= i < n ==> (#[trigger] out@[i]).0 == self.entries()[i] && out@[i].1 as nat == self.heights()[i],
            decreases n - j,
        {
            match next {
                None => break,
                Some(t) => {
                    proof {
                        self.lemma_level_zero_next(j);
                        assert(1 <= t < self.nodes@.len());
                    }
                    let key = self.nodes[t].key().unwrap();
                    let height = self.nodes[t].height();
                    out.push((key, height));
                    next = self.nodes[t].next(0);
                    proof {
                        j = j + 1;
                    }
                },
            }
        }
        out
    }

    /// The keys linked at `level`, in the order the links visit them,
    /// starting from the header. Above the list's levels there is none.
    pub fn level_listing(&self, level: usize) -> (r: Vec<i32>)
        requires
            self.wf(),
        ensures
            r@ == self.level_view(level as int),
    {
        let ghost n = self.len() as int;
        let mut out: Vec<i32> = Vec::new();
        if level >= self.max_level {
            proof {
                assert forall|r: int| 0 <= r < n implies self.h(r) <= level by {}
                self.lemma_level_keys_skip(level as int, 0, n);
            }
            return out;
        }
        let mut cur: usize = 0;
        let ghost mut p: int = -1;
        loop
            invariant
                self.wf(),
                n == self.len(),
                level < self.max_level,
                -1 <= p < n,
                cur == self.idx(p),
                p == -1 || self.h(p) > level,
                out@ == self.level_keys(level as int, p + 1),
            ensures
                out@ == self.level_keys(level as int, n),
            decreases n - p,
        {
            assert(self.link_ok(p, level as int));
            proof {
                self.lemma_idx_range(p);
            }
            match self.nodes[cur].next(level) {
                None => {
                    proof {
                        self.lemma_level_keys_skip(level as int, p + 1, n);
                    }
                    break;
                },
                Some(t) => {
                    let ghost q = choose|q: int| self.is_succ(p, q, level as int) && #[trigger] self.order@[q] == t;
                    proof {
                        self.lemma_level_keys_skip(level as int, p + 1, q);
                        assert(1 <= t < self.nodes@.len());
                    }
                    let key = self.nodes[t].key().unwrap();
                    out.push(key);
                    cur = t;
                    proof {
                        p = q;
                    }
                },
            }
        }
        out
    }

    // ----- lemmas on the arena -----

    /// The same arena under another occupied height that bounds every entry
    /// and is reached by one when above 1 is well formed.
    proof fn lemma_with_height(&self, new: SkipListInner)
        requires
            self.wf_core(),
            new.nodes == self.nodes,
            new.free == self.free,
            new.order == self.order,
            new.max_level == self.max_level,
            new.size == self.size,
            1 <= new.height <= new.max_level,
            forall|j: int| 0 <= j < self.len() ==> #[trigger] self.h(j) <= new.height,
            new.height == 1 || exists|j: int| 0 <= j < self.len() && #[trigger] self.h(j) == new.height,
        ensures
            new.wf(),
            new.entries() == self.entries(),
    {
        assert forall|r: int| #[trigger] new.h(r) == self.h(r) by {}
        assert forall|r: int| #[trigger] new.node_at(r) == self.node_at(r) by {}
        assert forall|p: int, level: int| -1 <= p < new.len() && 0 <= level < new.h(p)
            implies #[trigger] new.link_ok(p, level) by {
            assert(self.link_ok(p, level));
            assert(new.h(p) == self.h(p));
            if let Some(t) = self.node_at(p).link(level) {
                let q = choose|q: int| self.is_succ(p, q, level) && #[trigger] self.order@[q] == t;
                assert(new.is_succ(p, q, level));
            }
        }
        assert forall|j: int| 0 <= j < new.len() implies 1 <= #[trigger] new.h(j) <= new.height by {
            assert(new.h(j) == self.h(j));
        }
        assert forall|i: int, j: int| 0 <= i < j < new.len() implies new.key_at(i) < new.key_at(j) by {
            assert(new.key_at(i) == self.key_at(i));
            assert(new.key_at(j) == self.key_at(j));
        }
        if new.height != 1 {
            let w = choose|j: int| 0 <= j < self.len() && #[trigger] self.h(j) == new.height;
            assert(new.h(w) == self.h(w));
        }
        assert(new.entries() =~= self.entries());
    }

    /// At level 0 every node links to the next position.
    proof fn lemma_level_zero_next(&self, p: int)
        requires
            self.wf(),
            -1 <= p < self.len(),
        ensures
            self.node_at(p).link(0) == if p + 1 < self.len() {
                Some(self.order@[p + 1])
            } else {
                None::<usize>
            },
    {
        assert(self.h(p) > 0);
        assert(self.link_ok(p, 0));
        match self.node_at(p).link(0) {
            None => {
                if p + 1 < self.len() {
                    assert(self.h(p + 1) > 0);
                }
            },
            Some(t) => {
                let q = choose|q: int| self.is_succ(p, q, 0) && #[trigger] self.order@[q] == t;
                if q > p + 1 {
                    assert(self.h(p + 1) > 0);
                }
            },
        }
    }

    /// Entries no taller than `level` add nothing to the keys at `level`.
    proof fn lemma_level_keys_skip(&self, level: int, a: int, b: int)
        requires
            0 <= a <= b,
            forall|r: int| a <= r < b ==> self.h(r) <= level,
        ensures
            self.level_keys(level, b) == self.level_keys(level, a),
        decreases b - a,
    {
        if a < b {
            self.lemma_level_keys_skip(level, a, b - 1);
        }
    }

    /// A key is among the keys at `level` before position `upto` iff an
    /// entry before `upto`, taller than `level`, holds it.
    proof fn lemma_level_keys_contains(&self, level: int, upto: int, k: i32)
        requires
            0 <= upto,
        ensures
            self.level_keys(level, upto).contains(k) <==> exists|j: int|
                0 <= j < upto && self.h(j) > level && #[trigger] self.key_at(j) == k,
        decreases upto,
    {
        if upto > 0 {
            self.lemma_level_keys_contains(level, upto - 1, k);
            let prev = self.level_keys(level, upto - 1);
            if self.h(upto - 1) > level {
                let s = prev.push(self.key_at(upto - 1));
                if s.contains(k) {
                    let i = choose|i: int| 0 <= i < s.len() && s[i] == k;
                    if i < prev.len() {
                        assert(prev[i] == k);
                    }
                }
                if prev.contains(k) {
                    let i = choose|i: int| 0 <= i < prev.len() && prev[i] == k;
                    assert(s[i] == k);
                }
                if self.key_at(upto - 1) == k {
                    assert(s[prev.len() as int] == k);
                }
            }
        }
    }

    /// At level 0 the keys are all the entries' keys.
    proof fn lemma_level_zero_keys(&self, upto: int)
        requires
            self.wf(),
            0 <= upto <= self.len(),
        ensures
            self.level_keys(0, upto) == self.entries().subrange(0, upto),
        decreases upto,
    {
        if upto > 0 {
            self.lemma_level_zero_keys(upto - 1);
            assert(self.h(upto - 1) > 0);
            assert(self.entries().subrange(0, upto) =~= self.entries().subrange(0, upto - 1).push(
                self.key_at(upto - 1),
            ));
        } else {
            assert(self.entries().subrange(0, 0) =~= Seq::<i32>::empty());
        }
    }

    /// Distinct positions hold distinct arena indices.
    proof fn lemma_order_distinct(&self)
        requires
            self.wf(),
        ensures
            forall|i: int, j: int| 0 <= i < self.len() && 0 <= j < self.len() && i != j
                ==> self.order@[i] != self.order@[j],
    {
        assert forall|i: int, j: int| 0 <= i < self.len() && 0 <= j < self.len() && i != j
            implies self.order@[i] != self.order@[j] by {
            if i < j {
                assert(self.key_at(i) < self.key_at(j));
            } else {
                assert(self.key_at(j) < self.key_at(i));
            }
        }
    }

    /// Positions and the header have their node in the arena.
    proof fn lemma_idx_range(&self, p: int)
        requires
            self.wf(),
            -1 <= p < self.len(),
        ensures
            0 <= self.idx(p) < self.nodes@.len(),
            p == -1 <==> self.idx(p) == 0,
    {
        if p != -1 {
            assert(1 <= self.order@[p]);
        }
    }

    /// The keys after adding `key` at position `ins` of level 0.
    proof fn lemma_keys_insert(&self, new: SkipListInner, ins: int, key: i32)
        requires
            0 <= ins <= self.len(),
            new.entries() == self.entries().insert(ins, key),
        ensures
            new.keys() == self.keys().insert(key),
    {
        let e = self.entries();
        let e2 = new.entries();
        assert forall|k: i32| #[trigger] new.keys().contains(k) <==> self.keys().insert(key).contains(k) by {
            if e2.contains(k) {
                let j = choose|j: int| 0 <= j < e2.len() && e2[j] == k;
                if j < ins {
                    assert(e[j] == k);
                } else if j > ins {
                    assert(e[j - 1] == k);
                }
            }
            if e.contains(k) {
                let j = choose|j: int| 0 <= j < e.len() && e[j] == k;
                if j < ins {
                    assert(e2[j] == k);
                } else {
                    assert(e2[j + 1] == k);
                }
            }
            if k == key {
                assert(e2[ins] == k);
            }
        }
        assert(new.keys() =~= self.keys().insert(key));
    }

    /// Every slot of `nodes` but `t` is the slot of `base`, except that the
    /// links at levels below `upto` of the nodes named in `preds` point at `t`.
    closed spec fn framed(nodes: Seq<Node>, base: Seq<Node>, preds: Seq<usize>, t: usize, upto: int) -> bool {
        forall|x: int| 0 <= x < nodes.len() && x != t ==> {
            &&& #[trigger] nodes[x].same_kind(&base[x])
            &&& nodes[x].links_view().len() == base[x].links_view().len()
            &&& forall|l: int| 0 <= l < nodes[x].links_view().len() ==>
                #[trigger] nodes[x].links_view()[l] == if l < upto && preds[l] == x {
                    Some(t)
                } else {
                    base[x].links_view()[l]
                }
        }
    }

    /// Every slot of `nodes` but `t` is the slot of `base`, except that the
    /// links at levels below `upto` of the nodes named in `preds` are the
    /// links of `t` in `base`.
    closed spec fn unlinked(nodes: Seq<Node>, base: Seq<Node>, preds: Seq<usize>, t: usize, upto: int) -> bool {
        forall|x: int| 0 <= x < nodes.len() && x != t ==> {
            &&& #[trigger] nodes[x].same_kind(&base[x])
            &&& nodes[x].links_view().len() == base[x].links_view().len()
            &&& forall|l: int| 0 <= l < nodes[x].links_view().len() ==>
                #[trigger] nodes[x].links_view()[l] == if l < upto && preds[l] == x {
                    base[t as int].link(l)
                } else {
                    base[x].links_view()[l]
                }
        }
    }

    /// Unlinking at one more level: the predecessor at level `i` takes over
    /// the link of `t` there.
    proof fn lemma_unlinked_step(before: Seq<Node>, after: Seq<Node>, base: Seq<Node>, preds: Seq<usize>, t: usize, i: int)
        requires
            Self::unlinked(before, base, preds, t, i),
            0 <= i < preds.len(),
            0 <= preds[i] < before.len(),
            preds[i] != t,
            i < before[preds[i] as int].links_view().len(),
            after.len() == before.len(),
            forall|x: int| 0 <= x < before.len() && x != preds[i] ==> after[x] == before[x],
            after[preds[i] as int].same_kind(&before[preds[i] as int]),
            after[preds[i] as int].links_view() == before[preds[i] as int].links_view().update(i, base[t as int].link(i)),
        ensures
            Self::unlinked(after, base, preds, t, i + 1),
    {
        let p = preds[i] as int;
        assert forall|x: int| 0 <= x < after.len() && x != t implies {
            &&& #[trigger] after[x].same_kind(&base[x])
            &&& after[x].links_view().len() == base[x].links_view().len()
            &&& forall|l: int| 0 <= l < after[x].links_view().len() ==>
                #[trigger] after[x].links_view()[l] == if l < i + 1 && preds[l] == x {
                    base[t as int].link(l)
                } else {
                    base[x].links_view()[l]
                }
        } by {
            assert(before[x].same_kind(&base[x]));
            assert forall|l: int| 0 <= l < after[x].links_view().len() implies
                #[trigger] after[x].links_view()[l] == if l < i + 1 && preds[l] == x {
                    base[t as int].link(l)
                } else {
                    base[x].links_view()[l]
                } by {
                if x != p || l != i {
                    assert(after[x].links_view()[l] == before[x].links_view()[l]);
                }
            }
        }
    }

    /// Changing only slot `t` keeps the frame.
    proof fn lemma_framed_grow(before: Seq<Node>, after: Seq<Node>, base: Seq<Node>, preds: Seq<usize>, t: usize, i: int)
        requires
            Self::framed(before, base, preds, t, i),
            after.len() == before.len(),
            forall|x: int| 0 <= x < before.len() && x != t ==> after[x] == before[x],
        ensures
            Self::framed(after, base, preds, t, i),
    {
        assert forall|x: int| 0 <= x < after.len() && x != t implies {
            &&& #[trigger] after[x].same_kind(&base[x])
            &&& after[x].links_view().len() == base[x].links_view().len()
            &&& forall|l: int| 0 <= l < after[x].links_view().len() ==>
                #[trigger] after[x].links_view()[l] == if l < i && preds[l] == x {
                    Some(t)
                } else {
                    base[x].links_view()[l]
                }
        } by {
            assert(after[x] == before[x]);
            assert(before[x].same_kind(&base[x]));
        }
    }

    /// Linking at one more level: the predecessor at level `i` now points at `t`.
    proof fn lemma_framed_step(before: Seq<Node>, after: Seq<Node>, base: Seq<Node>, preds: Seq<usize>, t: usize, i: int)
        requires
            Self::framed(before, base, preds, t, i),
            0 <= i < preds.len(),
            0 <= preds[i] < before.len(),
            preds[i] != t,
            i < before[preds[i] as int].links_view().len(),
            after.len() == before.len(),
            forall|x: int| 0 <= x < before.len() && x != preds[i] ==> after[x] == before[x],
            after[preds[i] as int].same_kind(&before[preds[i] as int]),
            after[preds[i] as int].links_view() == before[preds[i] as int].links_view().update(i, Some(t)),
        ensures
            Self::framed(after, base, preds, t, i + 1),
    {
        let p = preds[i] as int;
        assert forall|x: int| 0 <= x < after.len() && x != t implies {
            &&& #[trigger] after[x].same_kind(&base[x])
            &&& after[x].links_view().len() == base[x].links_view().len()
            &&& forall|l: int| 0 <= l < after[x].links_view().len() ==>
                #[trigger] after[x].links_view()[l] == if l < i + 1 && preds[l] == x {
                    Some(t)
                } else {
                    base[x].links_view()[l]
                }
        } by {
            assert(before[x].same_kind(&base[x]));
            assert forall|l: int| 0 <= l < after[x].links_view().len() implies
                #[trigger] after[x].links_view()[l] == if l < i + 1 && preds[l] == x {
                    Some(t)
                } else {
                    base[x].links_view()[l]
                } by {
                if x != p || l != i {
                    assert(after[x].links_view()[l] == before[x].links_view()[l]);
                }
            }
        }
    }

    /// Retiring the slot `t` keeps the other slots as they were.
    proof fn lemma_unlinked_retire(nodes: Seq<Node>, base: Seq<Node>, preds: Seq<usize>, t: usize, upto: int)
        requires
            Self::unlinked(nodes, base, preds, t, upto),
            t < nodes.len(),
            nodes.len() == base.len(),
        ensures
            Self::unlinked(nodes.update(t as int, Node::Nil), base, preds, t, upto),
    {
        let nodes2 = nodes.update(t as int, Node::Nil);
        assert forall|x: int| 0 <= x < nodes2.len() && x != t implies {
            &&& #[trigger] nodes2[x].same_kind(&base[x])
            &&& nodes2[x].links_view().len() == base[x].links_view().len()
            &&& forall|l: int| 0 <= l < nodes2[x].links_view().len() ==>
                #[trigger] nodes2[x].links_view()[l] == if l < upto && preds[l] == x {
                    base[t as int].link(l)
                } else {
                    base[x].links_view()[l]
                }
        } by {
            assert(nodes2[x] == nodes[x]);
            assert(nodes[x].same_kind(&base[x]));
            assert forall|l: int| 0 <= l < nodes2[x].links_view().len() implies
                #[trigger] nodes2[x].links_view()[l] == if l < upto && preds[l] == x {
                    base[t as int].link(l)
                } else {
                    base[x].links_view()[l]
                } by {
                assert(nodes2[x].links_view()[l] == nodes[x].links_view()[l]);
            }
        }
    }

    /// `pp` holds, for each level, the position of the last node before
    /// `key` there, as a walk finds it.
    closed spec fn preds_ok(&self, pp: Seq<int>, key: i32) -> bool {
        &&& pp.len() == self.max_level
        &&& forall|l: int|
            0 <= l < self.max_level ==> {
                let p = #[trigger] pp[l];
                &&& -1 <= p < self.len()
                &&& p == -1 || (self.h(p) > l && self.key_at(p) < key)
                &&& forall|q: int| p < q < self.len() && self.h(q) > l ==> key <= self.key_at(q)
            }
    }

    /// Position of `new` that corresponds to position `r` of `self` when an
    /// entry was added at `ins`.
    closed spec fn moved(r: int, ins: int) -> int {
        if r < ins {
            r
        } else {
            r + 1
        }
    }

    /// Position of `self` that position `r` of `new` came from when an entry
    /// was added at `ins`.
    closed spec fn came_from(r: int, ins: int) -> int {
        if r < ins {
            r
        } else {
            r - 1
        }
    }

    /// `new` is `self` with an entry for `key` of height `hn` added at
    /// position `ins`, its links taken from the predecessors `pp`, and each
    /// predecessor's link at levels below `hn` pointing at it.
    closed spec fn relinked(&self, new: SkipListInner, pp: Seq<int>, key: i32, t: usize, hn: int) -> bool {
        let ins = pp[0] + 1;
        &&& new.len() == self.len() + 1
        &&& new.order@[ins] == t
        &&& new.h(ins) == hn
        &&& new.key_at(ins) == key
        &&& forall|l: int| 0 <= l < hn ==> #[trigger] new.node_at(ins).link(l) == self.node_at(pp[l]).link(l)
        &&& forall|r: int|
            #![trigger new.h(r)]
            #![trigger new.key_at(r)]
            #![trigger new.idx(r)]
            -1 <= r < new.len() && r != ins ==> {
                &&& new.h(r) == self.h(Self::came_from(r, ins))
                &&& new.key_at(r) == self.key_at(Self::came_from(r, ins))
                &&& new.idx(r) == self.idx(Self::came_from(r, ins))
                &&& forall|l: int| #![trigger new.node_at(r).link(l)]
                    0 <= l < new.h(r) ==> new.node_at(r).link(l) == if l < hn && pp[l] == Self::came_from(r, ins) {
                        Some(t)
                    } else {
                        self.node_at(Self::came_from(r, ins)).link(l)
                    }
            }
    }

    /// Facts on a walk's predecessors: they come no later than the level-0
    /// one, and nothing between a predecessor and the insertion point reaches
    /// its level.
    proof fn lemma_preds_gap(&self, pp: Seq<int>, key: i32)
        requires
            self.wf(),
            self.preds_ok(pp, key),
        ensures
            forall|r: int| 0 <= r <= pp[0] ==> self.key_at(r) < key,
            forall|r: int| pp[0] < r < self.len() ==> key <= self.key_at(r),
            !self.entries().contains(key) ==> forall|r: int| pp[0] < r < self.len() ==> key < self.key_at(r),
            forall|l: int, r: int| #![trigger pp[l], self.h(r)]
                0 <= l < self.max_level && pp[l] < r <= pp[0] ==> self.h(r) <= l,
            forall|l: int| 0 <= l < self.max_level ==> #[trigger] pp[l] <= pp[0],
    {
        assert(pp[0] == pp[0]);
        assert forall|r: int| 0 <= r <= pp[0] implies self.key_at(r) < key by {
            self.lemma_sorted(r, pp[0]);
        }
        assert forall|r: int| pp[0] < r < self.len() implies key <= self.key_at(r) by {
            assert(self.h(r) > 0);
        }
        if !self.entries().contains(key) {
            assert forall|r: int| pp[0] < r < self.len() implies key < self.key_at(r) by {
                assert(self.h(r) > 0);
                assert(self.entries()[r] == self.key_at(r));
            }
        }
        assert forall|l: int, r: int| #![trigger pp[l], self.h(r)]
            0 <= l < self.max_level && pp[l] < r <= pp[0] implies self.h(r) <= l by {
            assert(self.key_at(r) < key);
        }
        assert forall|l: int| 0 <= l < self.max_level implies #[trigger] pp[l] <= pp[0] by {
            let a = pp[l];
            if a > pp[0] {
                assert(self.key_at(a) < key);
            }
        }
    }

    /// One link of the state after an insert is right.
    proof fn lemma_insert_link(&self, new: SkipListInner, pp: Seq<int>, key: i32, t: usize, hn: int, np: int, l: int)
        requires
            self.wf(),
            self.preds_ok(pp, key),
            !self.entries().contains(key),
            1 <= hn <= self.max_level,
            self.relinked(new, pp, key, t, hn),
            -1 <= np < new.len(),
            0 <= l < new.h(np),
        ensures
            new.link_ok(np, l),
    {
        let ins = pp[0] + 1;
        self.lemma_preds_gap(pp, key);
        if np == ins {
            let a = pp[l];
            assert(self.link_ok(a, l));
            assert(new.node_at(ins).link(l) == self.node_at(a).link(l));
            match self.node_at(a).link(l) {
                None => {
                    assert forall|r: int| np < r < new.len() implies new.h(r) <= l by {
                        assert(new.h(r) == self.h(r - 1));
                    }
                },
                Some(tt) => {
                    let q = choose|q: int| self.is_succ(a, q, l) && #[trigger] self.order@[q] == tt;
                    assert(q >= ins) by {
                        if q < ins {
                            assert(self.h(q) <= l);
                        }
                    }
                    assert(new.idx(q + 1) == self.idx(q));
                    assert forall|r: int| np < r < q + 1 implies new.h(r) <= l by {
                        assert(new.h(r) == self.h(r - 1));
                    }
                    assert(new.is_succ(np, q + 1, l));
                    assert(new.order@[q + 1] == tt);
                },
            }
        } else {
            let op = Self::came_from(np, ins);
            assert(new.h(np) == self.h(op));
            assert(new.node_at(np).link(l) == if l < hn && pp[l] == op {
                Some(t)
            } else {
                self.node_at(op).link(l)
            });
            if l < hn && pp[l] == op {
                assert forall|r: int| np < r < ins implies new.h(r) <= l by {
                    assert(new.h(r) == self.h(r));
                }
                assert(new.is_succ(np, ins, l));
            } else {
                assert(self.link_ok(op, l));
                assert(l < hn ==> pp[l] != op);
                match self.node_at(op).link(l) {
                    None => {
                        assert forall|r: int| np < r < new.len() implies new.h(r) <= l by {
                            if r != ins {
                                assert(new.h(r) == self.h(Self::came_from(r, ins)));
                            } else if l < hn {
                                let a = pp[l];
                                if a != -1 && op < a {
                                    assert(self.h(a) > l);
                                }
                            }
                        }
                    },
                    Some(tt) => {
                        let q = choose|q: int| self.is_succ(op, q, l) && #[trigger] self.order@[q] == tt;
                        let q2 = Self::moved(q, ins);
                        assert(Self::came_from(q2, ins) == q);
                        assert(new.idx(q2) == self.idx(q));
                        assert(new.h(q2) == self.h(q));
                        assert forall|r: int| np < r < q2 implies new.h(r) <= l by {
                            if r != ins {
                                assert(new.h(r) == self.h(Self::came_from(r, ins)));
                            } else if l < hn {
                                let a = pp[l];
                                if a != -1 && op < a {
                                    assert(self.h(a) > l);
                                }
                            }
                        }
                        assert(new.is_succ(np, q2, l));
                        assert(new.order@[q2] == tt);
                    },
                }
            }
        }
    }

    /// The arena after linking in a new entry `t` for `key`, of height `hn`,
    /// behind the predecessors `pp`, seen through positions.
    proof fn lemma_insert_positions(&self, new: SkipListInner, pp: Seq<int>, preds: Seq<usize>, key: i32, t: usize, hn: int)
        requires
            self.wf(),
            self.preds_ok(pp, key),
            1 <= hn <= self.max_level,
            1 <= t < new.nodes@.len(),
            forall|j: int| 0 <= j < self.len() ==> self.order@[j] != t,
            new.order@ == self.order@.insert(pp[0] + 1, t),
            new.nodes@.len() >= self.nodes@.len(),
            new.nodes@[t as int] is Inner,
            new.nodes@[t as int].key_view() == Some(key),
            new.nodes@[t as int].links_view().len() == hn,
            forall|l: int| 0 <= l < hn ==> #[trigger] new.nodes@[t as int].links_view()[l]
                == self.node_at(pp[l]).link(l),
            preds.len() == self.max_level,
            forall|l: int| 0 <= l < self.max_level ==> preds[l] == self.idx(#[trigger] pp[l]),
            Self::framed(new.nodes@, self.nodes@, preds, t, hn),
        ensures
            self.relinked(new, pp, key, t, hn),
            forall|r: int| -1 <= r < new.len() && r != pp[0] + 1 ==>
                #[trigger] new.node_at(r).same_kind(&self.node_at(Self::came_from(r, pp[0] + 1))),
    {
        let ins = pp[0] + 1;
        self.lemma_order_distinct();
        assert(new.idx(ins) == t);
        assert forall|l: int| 0 <= l < hn implies #[trigger] new.node_at(ins).link(l) == self.node_at(pp[l]).link(l) by {
            assert(new.nodes@[t as int].links_view()[l] == self.node_at(pp[l]).link(l));
        }
        assert forall|r: int|
            #![trigger new.h(r)]
            #![trigger new.key_at(r)]
            #![trigger new.idx(r)]
            -1 <= r < new.len() && r != ins implies {
            &&& new.h(r) == self.h(Self::came_from(r, ins))
            &&& new.key_at(r) == self.key_at(Self::came_from(r, ins))
            &&& new.idx(r) == self.idx(Self::came_from(r, ins))
            &&& new.node_at(r).same_kind(&self.node_at(Self::came_from(r, ins)))
            &&& forall|l: int| #![trigger new.node_at(r).link(l)]
                0 <= l < new.h(r) ==> new.node_at(r).link(l) == if l < hn && pp[l] == Self::came_from(r, ins) {
                    Some(t)
                } else {
                    self.node_at(Self::came_from(r, ins)).link(l)
                }
        } by {
            let o = Self::came_from(r, ins);
            self.lemma_idx_range(o);
            let x = self.idx(o);
            if o != -1 {
                assert(self.order@[o] != t);
                assert(new.order@[r] == self.order@[o]);
            }
            assert(x != t);
            assert(new.idx(r) == x);
            assert(new.nodes@[x].same_kind(&self.nodes@[x]));
            assert forall|l: int| #![trigger new.node_at(r).link(l)]
                0 <= l < new.h(r) implies new.node_at(r).link(l) == if l < hn && pp[l] == o {
                    Some(t)
                } else {
                    self.node_at(o).link(l)
                } by {
                assert(new.node_at(r).links_view()[l] == new.nodes@[x].links_view()[l]);
                if l < hn {
                    self.lemma_idx_range(pp[l]);
                    assert(pp[l] == o <==> self.idx(pp[l]) == x);
                }
            }
        }
    }

    /// The state after linking in a new entry `t` for `key`, of height `hn`,
    /// behind the predecessors `pp` found by a walk, is well formed.
    proof fn lemma_insert_links(&self, new: SkipListInner, pp: Seq<int>, preds: Seq<usize>, key: i32, t: usize, hn: int)
        requires
            self.wf(),
            self.preds_ok(pp, key),
            !self.entries().contains(key),
            1 <= hn <= self.max_level,
            1 <= t < new.nodes@.len(),
            forall|j: int| 0 <= j < self.len() ==> self.order@[j] != t,
            new.order@ == self.order@.insert(pp[0] + 1, t),
            new.max_level == self.max_level,
            new.size == self.size + 1,
            new.height == if hn > self.height { hn } else { self.height as int },
            t < self.nodes@.len() ==> {
                &&& new.nodes@.len() == self.nodes@.len()
                &&& self.free@.len() > 0
                &&& self.free@.last() == t
                &&& new.free@ == self.free@.drop_last()
            },
            t >= self.nodes@.len() ==> {
                &&& t == self.nodes@.len()
                &&& new.nodes@.len() == self.nodes@.len() + 1
                &&& new.free@ == self.free@
            },
            new.nodes@[t as int] is Inner,
            new.nodes@[t as int].key_view() == Some(key),
            new.nodes@[t as int].links_view().len() == hn,
            forall|l: int| 0 <= l < hn ==> #[trigger] new.nodes@[t as int].links_view()[l]
                == self.node_at(pp[l]).link(l),
            preds.len() == self.max_level,
            forall|l: int| 0 <= l < self.max_level ==> preds[l] == self.idx(#[trigger] pp[l]),
            Self::framed(new.nodes@, self.nodes@, preds, t, hn),
        ensures
            new.wf(),
            new.entries() == self.entries().insert(pp[0] + 1, key),
            new.heights() == self.heights().insert(pp[0] + 1, hn as nat),
    {
        let ins = pp[0] + 1;
        self.lemma_insert_positions(new, pp, preds, key, t, hn);
        self.lemma_preds_gap(pp, key);
        assert forall|np: int, l: int| -1 <= np < new.len() && 0 <= l < new.h(np)
            implies #[trigger] new.link_ok(np, l) by {
            self.lemma_insert_link(new, pp, key, t, hn, np, l);
        }
        assert forall|j: int| 0 <= j < new.len() implies {
            &&& 1 <= #[trigger] new.order@[j] < new.nodes@.len()
            &&& new.nodes@[new.order@[j] as int] is Inner
        } by {
            if j != ins {
                assert(new.idx(j) == self.idx(Self::came_from(j, ins)));
                assert(new.node_at(j).same_kind(&self.node_at(Self::came_from(j, ins))));
            }
        }
        assert forall|j: int| 0 <= j < new.len() implies 1 <= #[trigger] new.h(j) <= new.height by {
            if j != ins {
                assert(new.h(j) == self.h(Self::came_from(j, ins)));
            }
        }
        assert forall|i: int, j: int| 0 <= i < j < new.len() implies new.key_at(i) < new.key_at(j) by {
            if i != ins {
                assert(new.key_at(i) == self.key_at(Self::came_from(i, ins)));
            }
            if j != ins {
                assert(new.key_at(j) == self.key_at(Self::came_from(j, ins)));
            }
        }
        assert forall|f: int| 0 <= f < new.free@.len() implies {
            &&& 1 <= #[trigger] new.free@[f] < new.nodes@.len()
            &&& new.nodes@[new.free@[f] as int] is Nil
        } by {
            assert(new.free@[f] == self.free@[f]);
            if t < self.nodes@.len() {
                assert(self.free@[f] != self.free@[self.free@.len() - 1]);
            }
            assert(new.nodes@[new.free@[f] as int].same_kind(&self.nodes@[new.free@[f] as int]));
        }
        assert forall|f: int, g: int| 0 <= f < g < new.free@.len() implies new.free@[f] != new.free@[g] by {
            assert(new.free@[f] == self.free@[f]);
            assert(new.free@[g] == self.free@[g]);
        }
        if new.height != 1 {
            if hn > self.height {
                assert(new.h(ins) == new.height);
            } else {
                let w = choose|j: int| 0 <= j < self.len() && #[trigger] self.h(j) == self.height;
                let w2 = Self::moved(w, ins);
                assert(Self::came_from(w2, ins) == w);
                assert(new.h(w2) == self.h(w));
            }
        }
        assert(new.nodes@[0].same_kind(&self.nodes@[0]));
        assert(new.nodes@[0].links_view().len() == self.nodes@[0].links_view().len());
        assert(new.entries() =~= self.entries().insert(ins, key)) by {
            assert forall|j: int| 0 <= j < new.len() implies #[trigger] new.entries()[j]
                == self.entries().insert(ins, key)[j] by {
                if j != ins {
                    assert(new.key_at(j) == self.key_at(Self::came_from(j, ins)));
                }
            }
        }
        assert(new.heights() =~= self.heights().insert(ins, hn as nat)) by {
            assert forall|j: int| 0 <= j < new.len() implies #[trigger] new.heights()[j]
                == self.heights().insert(ins, hn as nat)[j] by {
                if j != ins {
                    assert(new.h(j) == self.h(Self::came_from(j, ins)));
                }
            }
        }
    }

    /// When `key` is held, the entry after the level-0 predecessor holds it,
    /// and at each of its levels the walk's predecessor links to it.
    proof fn lemma_erase_target(&self, pp: Seq<int>, key: i32)
        requires
            self.wf(),
            self.preds_ok(pp, key),
            self.entries().contains(key),
        ensures
            0 <= pp[0] + 1 < self.len(),
            self.key_at(pp[0] + 1) == key,
            self.h(pp[0] + 1) <= self.max_level,
            forall|l: int| 0 <= l < self.h(pp[0] + 1) ==>
                #[trigger] self.node_at(pp[l]).link(l) == Some(self.order@[pp[0] + 1]),
    {
        let d = pp[0] + 1;
        self.lemma_preds_gap(pp, key);
        let j = choose|j: int| 0 <= j < self.entries().len() && self.entries()[j] == key;
        assert(j > pp[0]);
        self.lemma_sorted(d, j);
        assert(self.h(d) <= self.height);
        assert forall|l: int| 0 <= l < self.h(d) implies
            #[trigger] self.node_at(pp[l]).link(l) == Some(self.order@[d]) by {
            let a = pp[l];
            assert(a <= pp[0]);
            assert(self.is_succ(a, d, l));
            assert(self.link_ok(a, l));
            match self.node_at(a).link(l) {
                None => {
                    assert(self.h(d) <= l);
                },
                Some(tt) => {
                    let q = choose|q: int| self.is_succ(a, q, l) && #[trigger] self.order@[q] == tt;
                    if q < d {
                        assert(self.h(q) <= l);
                    } else if q > d {
                        assert(self.h(d) <= l);
                    }
                },
            }
        }
    }

    /// `new` is `self` with the entry at position `del`, of height `th`,
    /// removed, and each of its predecessors taking over its link at the
    /// levels below `th`.
    closed spec fn removed(&self, new: SkipListInner, pp: Seq<int>, del: int, th: int) -> bool {
        &&& new.len() + 1 == self.len()
        &&& forall|r: int|
            #![trigger new.h(r)]
            #![trigger new.key_at(r)]
            #![trigger new.idx(r)]
            -1 <= r < new.len() ==> {
                &&& new.h(r) == self.h(Self::moved(r, del))
                &&& new.key_at(r) == self.key_at(Self::moved(r, del))
                &&& new.idx(r) == self.idx(Self::moved(r, del))
                &&& new.node_at(r).same_kind(&self.node_at(Self::moved(r, del)))
                &&& forall|l: int| #![trigger new.node_at(r).link(l)]
                    0 <= l < new.h(r) ==> new.node_at(r).link(l) == if l < th && pp[l] == Self::moved(r, del) {
                        self.node_at(del).link(l)
                    } else {
                        self.node_at(Self::moved(r, del)).link(l)
                    }
            }
    }

    /// One link of the state after an erase is right.
    proof fn lemma_erase_link(&self, new: SkipListInner, pp: Seq<int>, key: i32, np: int, l: int)
        requires
            self.wf(),
            self.preds_ok(pp, key),
            self.entries().contains(key),
            self.removed(new, pp, pp[0] + 1, self.h(pp[0] + 1)),
            -1 <= np < new.len(),
            0 <= l < new.h(np),
        ensures
            new.link_ok(np, l),
    {
        let del = pp[0] + 1;
        let th = self.h(del);
        self.lemma_preds_gap(pp, key);
        self.lemma_erase_target(pp, key);
        let op = Self::moved(np, del);
        assert(new.h(np) == self.h(op));
        if l < th && pp[l] == op {
            assert(self.link_ok(del, l));
            match self.node_at(del).link(l) {
                None => {
                    assert forall|r: int| np < r < new.len() implies new.h(r) <= l by {
                        assert(new.h(r) == self.h(Self::moved(r, del)));
                    }
                },
                Some(tt) => {
                    let q = choose|q: int| self.is_succ(del, q, l) && #[trigger] self.order@[q] == tt;
                    assert(new.idx(q - 1) == self.idx(q));
                    assert forall|r: int| np < r < q - 1 implies new.h(r) <= l by {
                        assert(new.h(r) == self.h(Self::moved(r, del)));
                    }
                    assert(new.is_succ(np, q - 1, l));
                    assert(new.order@[q - 1] == tt);
                },
            }
        } else {
            assert(self.link_ok(op, l));
            match self.node_at(op).link(l) {
                None => {
                    assert forall|r: int| np < r < new.len() implies new.h(r) <= l by {
                        assert(new.h(r) == self.h(Self::moved(r, del)));
                    }
                },
                Some(tt) => {
                    let q = choose|q: int| self.is_succ(op, q, l) && #[trigger] self.order@[q] == tt;
                    assert(q != del) by {
                        if q == del {
                            let a = pp[l];
                            assert(self.node_at(a).link(l) == Some(self.order@[del]));
                            if op < a {
                                assert(self.h(a) > l);
                            } else if a < op {
                                assert(op <= pp[0]);
                                assert(self.key_at(op) < key);
                            }
                        }
                    }
                    let q2 = if q < del { q } else { q - 1 };
                    assert(Self::moved(q2, del) == q);
                    assert(new.idx(q2) == self.idx(q));
                    assert(new.h(q2) == self.h(q));
                    assert forall|r: int| np < r < q2 implies new.h(r) <= l by {
                        assert(new.h(r) == self.h(Self::moved(r, del)));
                    }
                    assert(new.is_succ(np, q2, l));
                    assert(new.order@[q2] == tt);
                },
            }
        }
    }

    /// The state after unlinking and retiring the entry `t` holding `key`
    /// is well formed but for the occupied height, which still bounds every
    /// entry's height.
    proof fn lemma_erase_links(&self, new: SkipListInner, pp: Seq<int>, preds: Seq<usize>, key: i32, t: usize)
        requires
            self.wf(),
            self.preds_ok(pp, key),
            self.entries().contains(key),
            t == self.order@[pp[0] + 1],
            new.order@ == self.order@.remove(pp[0] + 1),
            new.max_level == self.max_level,
            new.size + 1 == self.size,
            new.height == self.height,
            new.nodes@.len() == self.nodes@.len(),
            new.nodes@[t as int] is Nil,
            new.free@ == self.free@.push(t),
            preds.len() == self.max_level,
            forall|l: int| 0 <= l < self.max_level ==> preds[l] == self.idx(#[trigger] pp[l]),
            Self::unlinked(new.nodes@, self.nodes@, preds, t, self.h(pp[0] + 1)),
        ensures
            new.wf_core(),
            new.entries() == self.entries().remove(pp[0] + 1),
            new.heights() == self.heights().remove(pp[0] + 1),
    {
        let del = pp[0] + 1;
        let th = self.h(del);
        self.lemma_erase_target(pp, key);
        self.lemma_order_distinct();
        assert forall|r: int|
            #![trigger new.h(r)]
            #![trigger new.key_at(r)]
            #![trigger new.idx(r)]
            -1 <= r < new.len() implies {
            &&& new.h(r) == self.h(Self::moved(r, del))
            &&& new.key_at(r) == self.key_at(Self::moved(r, del))
            &&& new.idx(r) == self.idx(Self::moved(r, del))
            &&& new.node_at(r).same_kind(&self.node_at(Self::moved(r, del)))
            &&& forall|l: int| #![trigger new.node_at(r).link(l)]
                0 <= l < new.h(r) ==> new.node_at(r).link(l) == if l < th && pp[l] == Self::moved(r, del) {
                    self.node_at(del).link(l)
                } else {
                    self.node_at(Self::moved(r, del)).link(l)
                }
        } by {
            let o = Self::moved(r, del);
            self.lemma_idx_range(o);
            let x = self.idx(o);
            if o != -1 {
                assert(self.order@[o] != t);
                assert(new.order@[r] == self.order@[o]);
            }
            assert(x != t);
            assert(new.idx(r) == x);
            assert(new.nodes@[x].same_kind(&self.nodes@[x]));
            assert forall|l: int| #![trigger new.node_at(r).link(l)]
                0 <= l < new.h(r) implies new.node_at(r).link(l) == if l < th && pp[l] == o {
                    self.node_at(del).link(l)
                } else {
                    self.node_at(o).link(l)
                } by {
                assert(new.node_at(r).links_view()[l] == new.nodes@[x].links_view()[l]);
                if l < th {
                    self.lemma_idx_range(pp[l]);
                    assert(pp[l] == o <==> self.idx(pp[l]) == x);
                }
            }
        }
        assert(self.removed(new, pp, del, th));
        assert forall|np: int, l: int| -1 <= np < new.len() && 0 <= l < new.h(np)
            implies #[trigger] new.link_ok(np, l) by {
            self.lemma_erase_link(new, pp, key, np, l);
        }
        assert forall|j: int| 0 <= j < new.len() implies {
            &&& 1 <= #[trigger] new.order@[j] < new.nodes@.len()
            &&& new.nodes@[new.order@[j] as int] is Inner
        } by {
            assert(new.idx(j) == self.idx(Self::moved(j, del)));
            assert(new.node_at(j).same_kind(&self.node_at(Self::moved(j, del))));
        }
        assert forall|j: int| 0 <= j < new.len() implies 1 <= #[trigger] new.h(j) <= new.height by {
            assert(new.h(j) == self.h(Self::moved(j, del)));
        }
        assert forall|i: int, j: int| 0 <= i < j < new.len() implies new.key_at(i) < new.key_at(j) by {
            assert(new.key_at(i) == self.key_at(Self::moved(i, del)));
            assert(new.key_at(j) == self.key_at(Self::moved(j, del)));
        }
        assert forall|f: int| 0 <= f < new.free@.len() implies {
            &&& 1 <= #[trigger] new.free@[f] < new.nodes@.len()
            &&& new.nodes@[new.free@[f] as int] is Nil
        } by {
            if f < self.free@.len() {
                assert(new.free@[f] == self.free@[f]);
                assert(self.nodes@[self.free@[f] as int] is Nil);
                assert(self.free@[f] != t);
                assert(new.nodes@[new.free@[f] as int].same_kind(&self.nodes@[new.free@[f] as int]));
            }
        }
        assert forall|f: int, g: int| 0 <= f < g < new.free@.len() implies new.free@[f] != new.free@[g] by {
            if g == self.free@.len() {
                assert(self.nodes@[self.free@[f] as int] is Nil);
            }
        }
        assert(new.nodes@[0].same_kind(&self.nodes@[0]));
        assert(new.nodes@[0].links_view().len() == self.nodes@[0].links_view().len());
        assert(new.entries() =~= self.entries().remove(del)) by {
            assert forall|j: int| 0 <= j < new.len() implies #[trigger] new.entries()[j]
                == self.entries().remove(del)[j] by {
                assert(new.key_at(j) == self.key_at(Self::moved(j, del)));
            }
        }
        assert(new.heights() =~= self.heights().remove(del)) by {
            assert forall|j: int| 0 <= j < new.len() implies #[trigger] new.heights()[j]
                == self.heights().remove(del)[j] by {
                assert(new.h(j) == self.h(Self::moved(j, del)));
            }
        }
    }

    /// The keys after removing position `del`, which holds `key`.
    proof fn lemma_keys_remove(&self, new: SkipListInner, del: int, key: i32)
        requires
            self.wf(),
            0 <= del < self.len(),
            self.key_at(del) == key,
            new.entries() == self.entries().remove(del),
        ensures
            new.keys() == self.keys().remove(key),
    {
        let e = self.entries();
        let e2 = new.entries();
        assert forall|k: i32| #[trigger] new.keys().contains(k) <==> self.keys().remove(key).contains(k) by {
            if e2.contains(k) {
                let j = choose|j: int| 0 <= j < e2.len() && e2[j] == k;
                if j < del {
                    assert(e[j] == k);
                    assert(self.key_at(j) < self.key_at(del));
                } else {
                    assert(e[j + 1] == k);
                    assert(self.key_at(del) < self.key_at(j + 1));
                }
            }
            if e.contains(k) && k != key {
                let j = choose|j: int| 0 <= j < e.len() && e[j] == k;
                if j < del {
                    assert(e2[j] == k);
                } else {
                    assert(j != del);
                    assert(e2[j - 1] == k);
                }
            }
        }
        assert(new.keys() =~= self.keys().remove(key));
    }

    // ----- lemmas on walks -----

    /// Keys strictly increase along level 0, so they increase weakly between
    /// any two positions.
    proof fn lemma_sorted(&self, i: int, j: int)
        requires
            self.wf(),
            0 <= i <= j < self.len(),
        ensures
            self.key_at(i) <= self.key_at(j),
    {
    }

    /// A walk at `level` that finds no successor after `p` has passed every
    /// tall enough entry; at level 0 it has passed every entry.
    proof fn lemma_nothing_after(&self, p: int, level: int, key: i32)
        requires
            self.wf(),
            -1 <= p < self.len(),
            0 <= level,
            forall|r: int| p < r < self.len() ==> self.h(r) <= level,
            p == -1 || self.key_at(p) < key,
        ensures
            forall|q: int| p < q < self.len() && self.h(q) > level ==> key <= self.key_at(q),
            level == 0 ==> !self.entries().contains(key),
    {
        if level == 0 && self.entries().contains(key) {
            let j = choose|j: int| 0 <= j < self.entries().len() && self.entries()[j] == key;
            if j > p {
                assert(self.h(j) >= 1);
            } else {
                self.lemma_sorted(j, p);
            }
        }
    }

    /// A walk at `level` that stops in front of the successor `q`, whose key
    /// is not below `key`, has passed every smaller tall enough entry; at
    /// level 0, `key` is held only if `q` holds it.
    proof fn lemma_stop_at(&self, p: int, q: int, level: int, key: i32)
        requires
            self.wf(),
            -1 <= p,
            0 <= level,
            self.is_succ(p, q, level),
            key <= self.key_at(q),
            p == -1 || self.key_at(p) < key,
        ensures
            forall|r: int| p < r < self.len() && self.h(r) > level ==> key <= self.key_at(r),
            level == 0 ==> q == p + 1,
            level == 0 && key < self.key_at(q) ==> !self.entries().contains(key),
    {
        assert forall|r: int| p < r < self.len() && self.h(r) > level implies key <= self.key_at(r) by {
            if r >= q {
                self.lemma_sorted(q, r);
            }
        }
        if level == 0 {
            if q > p + 1 {
                assert(self.h(p + 1) >= 1);
            }
            if key < self.key_at(q) && self.entries().contains(key) {
                let j = choose|j: int| 0 <= j < self.entries().len() && self.entries()[j] == key;
                if j > p {
                    self.lemma_sorted(q, j);
                } else {
                    self.lemma_sorted(j, p);
                }
            }
        }
    }
}

/// `h` is the height that the words `words` give with at most `max_level`
/// levels: each word divisible by 4 adds a level, the first other word or
/// the last level stops the draw, and no word is drawn after that.
pub open spec fn is_drawn_height(words: Seq<u32>, max_level: int, h: int) -> bool {
    &&& 1 <= h <= max_level
    &&& forall|i: int| 0 <= i < h - 1 ==> #[trigger] words[i] % 4 == 0
    &&& if h < max_level {
        words.len() == h && words[h - 1] % 4 != 0
    } else {
        words.len() == h - 1
    }
}

/// Level 0 holds the keys in strictly increasing order, so without a
/// duplicate. Every operation keeps the list well formed, so this holds
/// after any sequence of operations.
pub proof fn lemma_level_zero_sorted(list: &SkipListInner)
    requires
        list.wf(),
    ensures
        forall|i: int, j: int|
            0 <= i < j < list.entries().len() ==> list.entries()[i] < list.entries()[j],
        list.entries().no_duplicates(),
{
    assert forall|i: int, j: int| 0 <= i < j < list.entries().len() implies list.entries()[i]
        < list.entries()[j] by {
        assert(list.key_at(i) < list.key_at(j));
    }
}

/// The keys present at a higher level are present at every lower level, and
/// level 0 holds every key, in order.
pub proof fn lemma_levels_nested(list: &SkipListInner, lower: int, higher: int)
    requires
        list.wf(),
        0 <= lower < higher,
    ensures
        list.level_view(higher).to_set().subset_of(list.level_view(lower).to_set()),
        list.level_view(0) == list.entries(),
{
    let n = list.len() as int;
    assert forall|k: i32| list.level_view(higher).to_set().contains(k) implies list.level_view(
        lower,
    ).to_set().contains(k) by {
        list.lemma_level_keys_contains(higher, n, k);
        list.lemma_level_keys_contains(lower, n, k);
        let j = choose|j: int| 0 <= j < n && list.h(j) > higher && #[trigger] list.key_at(j) == k;
        assert(list.h(j) > lower);
    }
    list.lemma_level_zero_keys(n);
    assert(list.entries().subrange(0, n) =~= list.entries());
}

/// The occupied height never exceeds the height of the tallest entry (and
/// is 1 when no entry is taller): erasing the tallest entries brings it down
/// to the new maximum.
pub proof fn lemma_occupied_is_tallest(list: &SkipListInner)
    requires
        list.wf(),
    ensures
        list.heights().len() == list.entries().len(),
        1 <= list.occupied() <= list.max_level_view(),
        forall|j: int| 0 <= j < list.heights().len() ==> 1 <= #[trigger] list.heights()[j] <= list.occupied(),
        list.occupied() == 1 || exists|j: int| 0 <= j < list.heights().len() && #[trigger] list.heights()[j] == list.occupied(),
{
    assert forall|j: int| 0 <= j < list.heights().len() implies 1 <= #[trigger] list.heights()[j] <= list.occupied() by {
        assert(list.heights()[j] == list.h(j));
    }
    if list.occupied() != 1 {
        let w = choose|j: int| 0 <= j < list.len() && #[trigger] list.h(j) == list.height;
        assert(list.heights()[w] == list.occupied());
    }
}

} // verus!
