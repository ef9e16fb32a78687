//! Arena slots of the skip list: the header, the entries and retired slots.
//! Forward references are arena indices; `None` stands for "no successor".
use core::cmp::Ordering;
use vstd::prelude::*;

verus! {

/// One slot of the arena.
pub enum Node {
    /// The universal predecessor: one forward slot per level of the list.
    Header { links: Vec<Option<usize>> },
    /// An entry: its key and one forward slot per level it occupies.
    Inner { key: i32, links: Vec<Option<usize>> },
    /// A retired slot, waiting to be reused.
    Nil,
}

/// How `a` compares to `b`, as an `Ordering`.
pub open spec fn order_of(a: i32, b: i32) -> Ordering {
    if a < b {
        Ordering::Less
    } else if a == b {
        Ordering::Equal
    } else {
        Ordering::Greater
    }
}

impl Node {
    /// The forward slots of the node (none for a retired slot).
    pub open spec fn links_view(&self) -> Seq<Option<usize>> {
        match self {
            Node::Header { links } => links@,
            Node::Inner { links, .. } => links@,
            Node::Nil => Seq::empty(),
        }
    }

    /// The key of an entry; `None` for the header and a retired slot.
    pub open spec fn key_view(&self) -> Option<i32> {
        match self {
            Node::Inner { key, .. } => Some(*key),
            _ => None,
        }
    }

    /// The forward reference at `level`; `None` past the last slot.
    pub open spec fn link(&self, level: int) -> Option<usize> {
        if 0 <= level < self.links_view().len() {
            self.links_view()[level]
        } else {
            None
        }
    }

    /// `self` and `other` are the same kind of slot with the same key.
    pub open spec fn same_kind(&self, other: &Node) -> bool {
        &&& (self is Header <==> other is Header)
        &&& (self is Nil <==> other is Nil)
        &&& self.key_view() == other.key_view()
    }

    /// A header with `height` slots, none with a successor.
    pub fn new_header(height: usize) -> (r: Node)
        ensures
            r is Header,
            r.links_view() == Seq::new(height as nat, |i: int| None::<usize>),
    {
        let mut links: Vec<Option<usize>> = Vec::with_capacity(height);
        let mut i: usize = 0;
        while i < height
            invariant
                i <= height,
                links@ == Seq::new(i as nat, |j: int| None::<usize>),
            decreases height - i,
        {
            links.push(None);
            i = i + 1;
        }
        Node::Header { links }
    }

    /// An entry for `key` with room for `height` slots; its slots are filled
    /// level by level as it is linked in.
    pub fn new(key: i32, height: usize) -> (r: Node)
        ensures
            r.key_view() == Some(key),
            r.links_view().len() == 0,
    {
        Node::Inner { key, links: Vec::with_capacity(height) }
    }

    /// The key of an entry; `None` for the header and a retired slot.
    pub fn key(&self) -> (r: Option<i32>)
        ensures
            r == self.key_view(),
    {
        match self {
            Node::Inner { key, .. } => Some(*key),
            _ => None,
        }
    }

    /// Number of forward slots.
    pub fn height(&self) -> (r: usize)
        ensures
            r == self.links_view().len(),
    {
        match self {
            Node::Header { links } => links.len(),
            Node::Inner { links, .. } => links.len(),
            Node::Nil => 0,
        }
    }

    /// The forward reference at `level`, if that slot exists and is set.
    pub fn next(&self, level: usize) -> (r: Option<usize>)
        ensures
            r == self.link(level as int),
    {
        match self {
            Node::Header { links } => {
                if level < links.len() {
                    links[level]
                } else {
                    None
                }
            },
            Node::Inner { links, .. } => {
                if level < links.len() {
                    links[level]
                } else {
                    None
                }
            },
            Node::Nil => None,
        }
    }

    /// Sets the forward reference at `level`. An entry grows its slots up to
    /// `level`, filling the new ones with `next`; the header's slots are
    /// fixed. A retired slot is left as it is.
    pub fn set_next(&mut self, level: usize, next: Option<usize>)
        requires
            (*old(self)) is Header ==> level < old(self).links_view().len(),
        ensures
            final(self).same_kind(old(self)),
            (*old(self)) is Nil ==> *final(self) == *old(self),
            !((*old(self)) is Nil) ==> {
                &&& final(self).links_view().len() == if level < old(self).links_view().len() {
                    old(self).links_view().len()
                } else {
                    level as nat + 1
                }
                &&& forall|i: int|
                    0 <= i < final(self).links_view().len() ==> #[trigger] final(self).links_view()[i]
                        == if i == level {
                        next
                    } else if i < old(self).links_view().len() {
                        old(self).links_view()[i]
                    } else {
                        next
                    }
            },
    {
        match self {
            Node::Header { links } => {
                links.set(level, next);
            },
            Node::Inner { links, .. } => {
                if level < links.len() {
                    links.set(level, next);
                } else {
                    let ghost start = links@;
                    while links.len() <= level
                        invariant
                            start.len() <= links@.len() <= level + 1,
                            links@.subrange(0, start.len() as int) == start,
                            forall|i: int| start.len() <= i < links@.len() ==> links@[i] == next,
                        decreases level + 1 - links.len(),
                    {
                        links.push(next);
                    }
                }
            },
            Node::Nil => {},
        }
    }

    /// How this node's key compares to `key`; `None` for a node without key.
    pub fn compare_key(&self, key: i32) -> (r: Option<Ordering>)
        ensures
            r == match self.key_view() {
                Some(k) => Some(order_of(k, key)),
                None => None::<Ordering>,
            },
    {
        match self {
            Node::Inner { key: node_key, .. } => {
                if *node_key < key {
                    Some(Ordering::Less)
                } else if *node_key == key {
                    Some(Ordering::Equal)
                } else {
                    Some(Ordering::Greater)
                }
            },
            _ => None,
        }
    }

    /// Drops every successor: the header keeps its slots, all unset; an entry
    /// loses its slots.
    pub fn clear(&mut self)
        ensures
            final(self).same_kind(old(self)),
            (*old(self)) is Header ==> final(self).links_view() == Seq::new(
                old(self).links_view().len(),
                |i: int| None::<usize>,
            ),
            (*old(self)) is Inner ==> final(self).links_view().len() == 0,
            (*old(self)) is Nil ==> *final(self) == *old(self),
    {
        match self {
            Node::Header { links } => {
                let n = links.len();
                let mut i: usize = 0;
                while i < n
                    invariant
                        links@.len() == n,
                        i <= n,
                        forall|j: int| 0 <= j < i ==> links@[j] == None::<usize>,
                    decreases n - i,
                {
                    links.set(i, None);
                    i = i + 1;
                }
                assert(links@ =~= Seq::new(n as nat, |i: int| None::<usize>));
            },
            Node::Inner { links, .. } => {
                links.clear();
            },
            Node::Nil => {},
        }
    }

    /// Whether this is a retired slot.
    pub fn is_nil(&self) -> (r: bool)
        ensures
            r == (self is Nil),
    {
        match self {
            Node::Nil => true,
            _ => false,
        }
    }
}

} // verus!
