//! Walks over the entries of a skip list in increasing key order: by shared
//! reference, by mutable reference to the values, and by value.
use vstd::prelude::*;
use crate::list::{same_shape, Node, SkipList};
use crate::model::map_of;

verus! {

/// `rest` lists the arena indices still to visit, and the level-0 links of
/// `nodes` chain them in that order.
pub open spec fn chained<V>(nodes: Seq<Node<V>>, rest: Seq<usize>) -> bool {
    forall|x: int|
        0 <= x < rest.len() ==> #[trigger] rest[x] < nodes.len() && nodes[rest[x] as int].entry is Some
            && nodes[rest[x] as int].next@.len() >= 1 && nodes[rest[x] as int].next@[0] == (if x
            + 1 < rest.len() {
            Some(rest[x + 1])
        } else {
            None
        })
}

pub open spec fn first_of(rest: Seq<usize>) -> Option<usize> {
    if rest.len() > 0 {
        Some(rest[0])
    } else {
        None
    }
}

/// The entries at the indices `rest`, in that order.
pub open spec fn entries_at<V>(nodes: Seq<Node<V>>, rest: Seq<usize>) -> Seq<(u64, V)> {
    Seq::new(rest.len(), |x: int| nodes[rest[x] as int].entry->Some_0)
}

proof fn lemma_chained_tail<V>(nodes: Seq<Node<V>>, rest: Seq<usize>)
    requires
        chained(nodes, rest),
        rest.len() > 0,
    ensures
        chained(nodes, rest.drop_first()),
        nodes[rest[0] as int].next@[0] == first_of(rest.drop_first()),
        entries_at(nodes, rest.drop_first()) == entries_at(nodes, rest).drop_first(),
{
    let t = rest.drop_first();
    assert forall|x: int| 0 <= x < t.len() implies #[trigger] t[x] < nodes.len() && nodes[t[x] as int].entry is Some
        && nodes[t[x] as int].next@.len() >= 1 && nodes[t[x] as int].next@[0] == (if x + 1 < t.len() {
        Some(t[x + 1])
    } else {
        None
    }) by {
        assert(t[x] == rest[x + 1]);
    }
    assert(entries_at(nodes, t) =~= entries_at(nodes, rest).drop_first());
}

/// Visits the entries of a list by shared reference, in increasing key order.
pub struct Iter<'a, V> {
    nodes: &'a Vec<Node<V>>,
    cur: Option<usize>,
    len: usize,
    rest: Ghost<Seq<usize>>,
}

impl<'a, V> Iter<'a, V> {
    pub closed spec fn wf(&self) -> bool {
        &&& self.len == self.rest@.len()
        &&& self.cur == first_of(self.rest@)
        &&& chained(self.nodes@, self.rest@)
    }

    /// The entries not yet visited.
    pub closed spec fn remaining(&self) -> Seq<(u64, V)> {
        entries_at(self.nodes@, self.rest@)
    }

    /// The next entry, or `None` when all have been visited.
    pub fn next(&mut self) -> (r: Option<(&'a u64, &'a V)>)
        requires
            old(self).wf(),
        ensures
            final(self).wf(),
            old(self).remaining().len() == 0 ==> r is None && final(self).remaining() == old(self).remaining(),
            old(self).remaining().len() > 0 ==> r is Some && *(r->Some_0.0) == old(self).remaining()[0].0 && *(r->Some_0.1) == old(self).remaining()[0].1 && final(self).remaining() == old(self).remaining().drop_first(),
    {
        match self.cur {
            None => None,
            Some(i) => {
                proof {
                    lemma_chained_tail(self.nodes@, self.rest@);
                }
                let nodes: &'a Vec<Node<V>> = self.nodes;
                let n: &'a Node<V> = &nodes[i];
                self.cur = n.next[0];
                self.len = self.len - 1;
                self.rest = Ghost(self.rest@.drop_first());
                let e: &'a (u64, V) = n.entry.as_ref().unwrap();
                Some((&e.0, &e.1))
            },
        }
    }

    /// The number of entries not yet visited, as lower and upper bound.
    pub fn size_hint(&self) -> (r: (usize, Option<usize>))
        requires
            self.wf(),
        ensures
            r == (self.remaining().len() as usize, Some(self.remaining().len() as usize)),
    {
        (self.len, Some(self.len))
    }

    /// The number of entries not yet visited.
    pub fn count(self) -> (r: usize)
        requires
            self.wf(),
        ensures
            r == self.remaining().len(),
    {
        self.len
    }
}

/// Visits the entries of a list in increasing key order, each key by shared
/// reference and each value by mutable reference. The fields are public so
/// that contracts can follow the borrowed arena to the end of the walk;
/// `next` asks for `wf`, which only `SkipList::iter_mut` and `next` establish.
pub struct IterMut<'a, V> {
    /// The borrowed arena of the list.
    pub nodes: &'a mut Vec<Node<V>>,
    /// The arena index of the next entry to visit.
    pub cur: Option<usize>,
    /// How many entries are left to visit.
    pub len: usize,
    /// The arena as it was when the walk began.
    pub base: Ghost<Seq<Node<V>>>,
    /// The arena indices of all entries, in key order.
    pub order: Ghost<Seq<usize>>,
    /// How many entries have been visited.
    pub pos: Ghost<int>,
}

impl<'a, V> IterMut<'a, V> {
    pub closed spec fn wf(&self) -> bool {
        &&& same_shape(self.base@, self.nodes@)
        &&& chained(self.base@, self.order@)
        &&& self.order@.no_duplicates()
        &&& 0 <= self.pos@ <= self.order@.len()
        &&& self.len == self.order@.len() - self.pos@
        &&& self.cur == first_of(self.order@.skip(self.pos@))
    }

    /// Every entry, with the values as they stand now.
    pub closed spec fn all(&self) -> Seq<(u64, V)> {
        entries_at(self.nodes@, self.order@)
    }

    /// How many entries have been visited.
    pub closed spec fn visited(&self) -> int {
        self.pos@
    }

    /// The next key and a mutable reference to its value, or `None` when all
    /// entries have been visited. A value written through the reference is
    /// the entry's value from then on.
    pub fn next(&mut self) -> (r: Option<(&u64, &mut V)>)
        requires
            old(self).wf(),
        ensures
            final(self).wf(),
            *final(final(self).nodes) == *final(old(self).nodes),
            old(self).visited() == old(self).all().len() ==> r is None && final(self).visited()
                == old(self).visited() && final(self).all() == old(self).all(),
            final(self).base == old(self).base,
            final(self).order == old(self).order,
            old(self).visited() < old(self).all().len() ==> r is Some && final(self).visited()
                == old(self).visited() + 1 && *(r->Some_0.0) == old(self).all()[old(self).visited()].0
                && *(r->Some_0.1) == old(self).all()[old(self).visited()].1 && final(self).all()
                == old(self).all().update(
                old(self).visited(),
                (old(self).all()[old(self).visited()].0, *final(r->Some_0.1)),
            ),
    {
        match self.cur {
            None => None,
            Some(i) => {
                proof {
                    assert(self.order@.skip(self.pos@)[0] == self.order@[self.pos@]);
                }
                let nx = self.nodes[i].next[0];
                self.cur = nx;
                self.len = self.len - 1;
                self.pos = Ghost(self.pos@ + 1);
                let n: &mut Node<V> = &mut self.nodes[i];
                match &mut n.entry {
                    Some(e) => Some((&e.0, &mut e.1)),
                    None => None,
                }
            },
        }
    }

    /// The number of entries not yet visited, as lower and upper bound.
    pub fn size_hint(&self) -> (r: (usize, Option<usize>))
        requires
            self.wf(),
        ensures
            r == ((self.all().len() - self.visited()) as usize, Some(
                (self.all().len() - self.visited()) as usize,
            )),
    {
        (self.len, Some(self.len))
    }

    /// The number of entries not yet visited.
    pub fn count(self) -> (r: usize)
        requires
            self.wf(),
        ensures
            r == self.all().len() - self.visited(),
    {
        self.len
    }
}

/// Takes the entries of a list by value, in increasing key order.
pub struct IntoIter<V> {
    nodes: Vec<Node<V>>,
    cur: Option<usize>,
    len: usize,
    rest: Ghost<Seq<usize>>,
}

impl<V> IntoIter<V> {
    pub closed spec fn wf(&self) -> bool {
        &&& self.len == self.rest@.len()
        &&& self.cur == first_of(self.rest@)
        &&& chained(self.nodes@, self.rest@)
        &&& self.rest@.no_duplicates()
    }

    /// The entries not yet taken.
    pub closed spec fn remaining(&self) -> Seq<(u64, V)> {
        entries_at(self.nodes@, self.rest@)
    }

    /// Takes the next entry, or returns `None` when all have been taken.
    pub fn next(&mut self) -> (r: Option<(u64, V)>)
        requires
            old(self).wf(),
        ensures
            final(self).wf(),
            old(self).remaining().len() == 0 ==> r is None && final(self).remaining() == old(self).remaining(),
            old(self).remaining().len() > 0 ==> r == Some(old(self).remaining()[0]) && final(self).remaining() == old(self).remaining().drop_first(),
    {
        match self.cur {
            None => None,
            Some(i) => {
                let ghost n0 = self.nodes@;
                let ghost rest = self.rest@;
                proof {
                    lemma_chained_tail(n0, rest);
                }
                self.cur = self.nodes[i].next[0];
                self.len = self.len - 1;
                self.rest = Ghost(self.rest@.drop_first());
                let mut e: Option<(u64, V)> = None;
                std::mem::swap(&mut self.nodes[i].entry, &mut e);
                proof {
                    let t = rest.drop_first();
                    assert forall|x: int| 0 <= x < t.len() implies t[x] != i by {
                        assert(t[x] == rest[x + 1]);
                    }
                    assert forall|x: int| 0 <= x < t.len() implies #[trigger] self.nodes@[t[x] as int] == n0[t[x] as int] by {
                        assert(t[x] == rest[x + 1]);
                    }
                    assert forall|x: int| 0 <= x < t.len() implies #[trigger] t[x] < self.nodes@.len() && self.nodes@[t[x] as int].entry is Some
                        && self.nodes@[t[x] as int].next@.len() >= 1 && self.nodes@[t[x] as int].next@[0] == (if x + 1 < t.len() {
                        Some(t[x + 1])
                    } else {
                        None
                    }) by {
                        assert(self.nodes@[t[x] as int] == n0[t[x] as int]);
                    }
                    assert(entries_at(self.nodes@, t) =~= entries_at(n0, t));
                }
                e
            },
        }
    }

    /// The number of entries not yet taken, as lower and upper bound.
    pub fn size_hint(&self) -> (r: (usize, Option<usize>))
        requires
            self.wf(),
        ensures
            r == (self.remaining().len() as usize, Some(self.remaining().len() as usize)),
    {
        (self.len, Some(self.len))
    }

    /// The number of entries not yet taken.
    pub fn count(self) -> (r: usize)
        requires
            self.wf(),
        ensures
            r == self.remaining().len(),
    {
        self.len
    }
}

impl<V> SkipList<V> {
    /// Visits the entries in increasing key order with mutable access to the
    /// values. Once the walk is over the list holds the arena as the walk left
    /// it.
    pub fn iter_mut(&mut self) -> (r: IterMut<'_, V>)
        requires
            old(self).wf(),
        ensures
            r.wf(),
            r.visited() == 0,
            r.all() == old(self).entries(),
            r.base@ == old(self).arena(),
            r.order@ == old(self).key_order(),
            *final(self) == old(self).with_nodes(*final(r.nodes)),
    {
        proof {
            self.lemma_chain();
            self.lemma_order_distinct();
        }
        let ghost e = self.entries();
        let ghost base = self.nodes@;
        let ghost order = self.order@;
        let cur = self.first_link();
        let len = self.len();
        let r = IterMut { nodes: self.arena_mut(), cur, len, base: Ghost(base), order: Ghost(order), pos: Ghost(0) };
        proof {
            assert(r.all() =~= e);
            assert(order.skip(0) =~= order);
        }
        r
    }

    /// Visits the entries by shared reference, in increasing key order.
    pub fn iter(&self) -> (r: Iter<'_, V>)
        requires
            self.wf(),
        ensures
            r.wf(),
            r.remaining() == self.entries(),
    {
        proof {
            self.lemma_chain();
        }
        let r = Iter { nodes: &self.nodes, cur: self.nodes[0].next[0], len: self.len, rest: Ghost(self.order@) };
        proof {
            assert(r.remaining() =~= self.entries());
        }
        r
    }

    /// Hands every entry over by value, in increasing key order.
    pub fn into_iter(self) -> (r: IntoIter<V>)
        requires
            self.wf(),
        ensures
            r.wf(),
            r.remaining() == self.entries(),
    {
        proof {
            self.lemma_chain();
            self.lemma_order_distinct();
        }
        let ghost e = self.entries();
        let cur = self.nodes[0].next[0];
        let r = IntoIter { nodes: self.nodes, cur, len: self.len, rest: self.order };
        proof {
            assert(r.remaining() =~= e);
        }
        r
    }
}

/// Values written through a mutable walk are what the list holds after it:
/// once the walk over `list` is over, the list is well formed again, keeps its
/// keys in the same order, and maps each key to the value last written for it.
pub proof fn law_iter_mut_writes_back<'a, V>(list: SkipList<V>, it: IterMut<'a, V>)
    requires
        list.wf(),
        it.wf(),
        it.base@ == list.arena(),
        it.order@ == list.key_order(),
    ensures
        list.with_nodes(*old(it.nodes)).wf(),
        list.with_nodes(*old(it.nodes)).entries() == it.all(),
        list.with_nodes(*old(it.nodes))@ == map_of(it.all()),
{
    list.lemma_chain();
    list.lemma_values_replaced(*it.nodes);
    let e = list.with_nodes(*old(it.nodes)).entries();
    assert forall|x: int| 0 <= x < e.len() implies #[trigger] e[x] == it.all()[x] by {
        assert(list.entries()[x] == list.nodes@[list.order@[x] as int].entry->Some_0);
    }
    assert(e =~= it.all());
}

} // verus!
