//! The skip list: an arena of nodes addressed by index, slot 0 being the
//! sentinel that anchors every level.
use vstd::prelude::*;
use rand::Rng;
use crate::levels::{
    is_next_pos, lemma_insert_from, lemma_insert_into, lemma_insert_other, lemma_next_pos,
    lemma_next_pos_base, lemma_next_pos_unique, lemma_pred_unique, lemma_remove_into,
    lemma_remove_other, next_pos,
};
use crate::model::{
    lemma_map_of_index, lemma_map_of_insert, lemma_map_of_remove, lemma_map_of_update, map_of,
    sorted_keys,
};

verus! {

/// The number of levels a list has when none is given.
pub const DEFAULT_MAX_LEVEL: usize = 12;

/// Relies on rand::thread_rng and Rng::gen_range: the drawn level lies in the
/// half-open range `1..max_level` (gen_range panics on an empty range).
#[verifier::external_body]
fn draw_level(max_level: usize) -> (r: usize)
    requires
        2 <= max_level,
    ensures
        1 <= r < max_level,
{
    rand::thread_rng().gen_range(1..max_level)
}

/// One slot of the arena. A slot without an entry is either the sentinel or
/// vacant; `next[l]` is the index of the following node at level `l`.
pub struct Node<V> {
    /// The key and value, absent in the sentinel and in vacant slots.
    pub entry: Option<(u64, V)>,
    /// How many levels, from level 0 up, the node takes part in.
    pub level: usize,
    /// One link per level of the list.
    pub next: Vec<Option<usize>>,
}

/// `n` empty links.
pub open spec fn no_links(n: usize) -> Seq<Option<usize>> {
    Seq::new(n as nat, |i: int| None::<usize>)
}

/// `n` empty links.
fn empty_links(n: usize) -> (r: Vec<Option<usize>>)
    ensures
        r@ == no_links(n),
{
    let mut r: Vec<Option<usize>> = Vec::new();
    let mut i: usize = 0;
    while i < n
        invariant
            i <= n,
            r@ == no_links(i),
        decreases n - i,
    {
        r.push(None);
        i += 1;
        assert(r@ =~= no_links(i));
    }
    r
}

/// A predecessor array of `n` levels, each at the sentinel (index 0).
fn sentinel_preds(n: usize) -> (r: Vec<usize>)
    ensures
        r@ == Seq::new(n as nat, |i: int| 0usize),
{
    let mut r: Vec<usize> = Vec::new();
    let mut i: usize = 0;
    while i < n
        invariant
            i <= n,
            r@ == Seq::new(i as nat, |m: int| 0usize),
        decreases n - i,
    {
        r.push(0);
        i += 1;
        assert(r@ =~= Seq::new(i as nat, |m: int| 0usize));
    }
    r
}

impl<V> Node<V> {
    /// A node holding `key` and `value` that takes part in levels `0..level`,
    /// with `max_level` empty links.
    pub fn new(key: u64, value: V, level: usize, max_level: usize) -> (r: Self)
        ensures
            r.entry == Some((key, value)),
            r.level == level,
            r.next@ == no_links(max_level),
    {
        Node { entry: Some((key, value)), level, next: empty_links(max_level) }
    }

    /// The sentinel: no entry, and `max_level` empty links.
    pub fn sigil(max_level: usize) -> (r: Self)
        ensures
            r.entry is None,
            r.level == 0,
            r.next@ == no_links(max_level),
    {
        Node { entry: None, level: 0, next: empty_links(max_level) }
    }

    fn key(&self) -> (r: u64)
        requires
            self.entry is Some,
        ensures
            r == self.entry->Some_0.0,
    {
        self.entry.as_ref().unwrap().0
    }

    fn value(&self) -> (r: &V)
        requires
            self.entry is Some,
        ensures
            *r == self.entry->Some_0.1,
    {
        &self.entry.as_ref().unwrap().1
    }
}

/// `b` holds the nodes of `a` with, at most, other values in their entries.
pub open spec fn same_shape<V>(a: Seq<Node<V>>, b: Seq<Node<V>>) -> bool {
    &&& a.len() == b.len()
    &&& forall|i: int|
        0 <= i < a.len() ==> (#[trigger] b[i]).level == a[i].level && b[i].next == a[i].next && (
        b[i].entry is Some <==> a[i].entry is Some) && (b[i].entry is Some ==> b[i].entry->Some_0.0
            == a[i].entry->Some_0.0)
}

/// An ordered map from `u64` keys to values.
pub struct SkipList<V> {
    /// The arena; slot 0 is the sentinel.
    pub(crate) nodes: Vec<Node<V>>,
    /// The vacant slots of the arena, reused before it grows.
    pub(crate) free: Vec<usize>,
    /// The number of entries.
    pub(crate) len: usize,
    /// The number of levels in use.
    pub(crate) level: usize,
    /// The number of links in every node; levels lie in `1..max_level`.
    pub(crate) max_level: usize,
    /// The arena indices of the entries, in increasing key order.
    pub(crate) order: Ghost<Seq<usize>>,
}

impl<V> View for SkipList<V> {
    type V = Map<u64, V>;

    open spec fn view(&self) -> Map<u64, V> {
        map_of(self.entries())
    }
}

impl<V> SkipList<V> {
    /// The entries in increasing key order.
    pub closed spec fn entries(&self) -> Seq<(u64, V)> {
        Seq::new(
            self.order@.len(),
            |p: int| self.nodes@[self.order@[p] as int].entry->Some_0,
        )
    }

    /// The number of links in every node.
    pub closed spec fn spec_max_level(&self) -> nat {
        self.max_level as nat
    }

    /// The number of levels in use: no node takes part in more.
    pub closed spec fn spec_level(&self) -> nat {
        self.level as nat
    }

    /// The arena index at position `p` of the key order; `-1` is the sentinel.
    pub closed spec fn at(&self, p: int) -> int {
        if p < 0 {
            0
        } else {
            self.order@[p] as int
        }
    }

    /// The level of each entry's node, in key order.
    pub closed spec fn levels(&self) -> Seq<int> {
        Seq::new(self.order@.len(), |p: int| self.nodes@[self.order@[p] as int].level as int)
    }

    /// The key at position `p` of the key order.
    pub closed spec fn key_at(&self, p: int) -> u64 {
        self.nodes@[self.order@[p] as int].entry->Some_0.0
    }

    /// The link that leads to position `q`, or the empty link past the end.
    pub closed spec fn link(&self, q: int) -> Option<usize> {
        if q < self.order@.len() {
            Some(self.order@[q])
        } else {
            None
        }
    }

    /// Slot `i` holds an entry whose node takes part in at least one level
    /// and in no more than the list has in use.
    pub closed spec fn live(&self, i: usize) -> bool {
        &&& 1 <= i < self.nodes@.len()
        &&& self.nodes@[i as int].entry is Some
        &&& 1 <= self.nodes@[i as int].level <= self.level
    }

    /// At every level, each node taking part in it (and the sentinel) links
    /// to the next node in key order that takes part in it, or to nothing.
    pub closed spec fn links_ok(&self) -> bool {
        forall|p: int, l: int|
            -1 <= p < self.order@.len() && 0 <= l < self.max_level && (p == -1 || l
                < self.levels()[p]) ==> self.nodes@[self.at(p)].next@[l] == self.link(
                #[trigger] next_pos(self.levels(), p, l),
            )
    }

    /// The list is well formed: the sentinel and every node have one link per
    /// level, each slot is either live and in the key order or vacant and in
    /// the free list, keys strictly increase along the key order, and the
    /// links of every level follow it.
    pub closed spec fn wf(&self) -> bool {
        &&& 2 <= self.max_level
        &&& self.level < self.max_level
        &&& 1 <= self.nodes@.len()
        &&& self.nodes@[0].entry is None
        &&& forall|i: int|
            0 <= i < self.nodes@.len() ==> (#[trigger] self.nodes@[i]).next@.len()
                == self.max_level
        &&& self.len == self.order@.len()
        &&& self.order@.len() + self.free@.len() + 1 == self.nodes@.len()
        &&& forall|p: int| 0 <= p < self.order@.len() ==> self.live(#[trigger] self.order@[p])
        &&& forall|j: int|
            0 <= j < self.free@.len() ==> 1 <= #[trigger] self.free@[j] < self.nodes@.len()
                && self.nodes@[self.free@[j] as int].entry is None
        &&& self.free@.no_duplicates()
        &&& sorted_keys(self.entries())
        &&& self.links_ok()
    }

    proof fn lemma_entry_at(&self, p: int)
        requires
            self.wf(),
            0 <= p < self.order@.len(),
        ensures
            self.entries()[p].0 == self.key_at(p),
            self.entries()[p] == self.nodes@[self.order@[p] as int].entry->Some_0,
            self.live(self.order@[p]),
            1 <= self.levels()[p] <= self.level,
    {
    }

    proof fn lemma_key_order(&self, a: int, b: int)
        requires
            self.wf(),
            0 <= a < b < self.order@.len(),
        ensures
            self.key_at(a) < self.key_at(b),
    {
        self.lemma_entry_at(a);
        self.lemma_entry_at(b);
    }

    /// Every level of a well-formed list lies in `1..=level`.
    proof fn lemma_levels(&self)
        requires
            self.wf(),
        ensures
            forall|r: int| 0 <= r < self.levels().len() ==> 1 <= #[trigger] self.levels()[r] <= self.level,
            self.levels().len() == self.order@.len(),
    {
        assert forall|r: int| 0 <= r < self.levels().len() implies 1 <= #[trigger] self.levels()[r] <= self.level by {
            self.lemma_entry_at(r);
        }
    }

    /// The link at level `l` that leaves position `p`.
    proof fn lemma_link(&self, p: int, l: int)
        requires
            self.wf(),
            -1 <= p < self.order@.len(),
            0 <= l < self.max_level,
            p == -1 || l < self.levels()[p],
        ensures
            self.nodes@[self.at(p)].next@[l] == self.link(next_pos(self.levels(), p, l)),
            is_next_pos(self.levels(), p, l, next_pos(self.levels(), p, l)),
            0 <= self.at(p) < self.nodes@.len(),
            self.nodes@[self.at(p)].next@.len() == self.max_level,
    {
        lemma_next_pos(self.levels(), p, l);
        if p >= 0 {
            self.lemma_entry_at(p);
        }
    }

    /// Walks level `l` from position `p0` while the following key is below `k`.
    fn advance(&self, start: usize, Ghost(p0): Ghost<int>, l: usize, k: u64) -> (r: (
        usize,
        Ghost<int>,
    ))
        requires
            self.wf(),
            l < self.max_level,
            -1 <= p0 < self.order@.len(),
            start == self.at(p0),
            p0 == -1 || (l < self.levels()[p0] && self.key_at(p0) < k),
        ensures
            p0 <= r.1@ < self.order@.len(),
            r.0 == self.at(r.1@),
            r.1@ == -1 || (l < self.levels()[r.1@] && self.key_at(r.1@) < k),
            next_pos(self.levels(), r.1@, l as int) == self.order@.len() || k <= self.key_at(
                next_pos(self.levels(), r.1@, l as int),
            ),
    {
        let mut cur = start;
        let ghost mut p = p0;
        loop
            invariant
                self.wf(),
                l < self.max_level,
                p0 <= p < self.order@.len(),
                -1 <= p,
                cur == self.at(p),
                p == -1 || (l < self.levels()[p] && self.key_at(p) < k),
            decreases self.order@.len() - p,
        {
            proof {
                self.lemma_link(p, l as int);
            }
            let ghost q = next_pos(self.levels(), p, l as int);
            match self.nodes[cur].next[l] {
                None => {
                    return (cur, Ghost(p));
                },
                Some(j) => {
                    proof {
                        self.lemma_entry_at(q);
                    }
                    if self.nodes[j].key() < k {
                        cur = j;
                        proof {
                            p = q;
                        }
                    } else {
                        return (cur, Ghost(p));
                    }
                },
            }
        }
    }

    /// The value stored under `k`, if any.
    pub fn get(&self, k: &u64) -> (r: Option<&V>)
        requires
            self.wf(),
        ensures
            match r {
                Some(v) => self@.contains_key(*k) && *v == self@[*k],
                None => !self@.contains_key(*k),
            },
    {
        let mut cur: usize = 0;
        let ghost mut p: int = -1;
        let mut l: usize = self.level;
        proof {
            self.lemma_levels();
            if self.level == 0 {
                assert(self.order@.len() == 0) by {
                    if self.order@.len() > 0 {
                        assert(1 <= self.levels()[0]);
                    }
                }
            }
        }
        while l > 0
            invariant
                self.wf(),
                l <= self.level,
                -1 <= p < self.order@.len(),
                cur == self.at(p),
                p == -1 || (l <= self.levels()[p] && self.key_at(p) < *k),
                l == 0 ==> next_pos(self.levels(), p, 0) == self.order@.len() || *k < self.key_at(
                    next_pos(self.levels(), p, 0),
                ),
            decreases l,
        {
            l -= 1;
            let (c, Ghost(pp)) = self.advance(cur, Ghost(p), l, *k);
            cur = c;
            proof {
                p = pp;
                self.lemma_link(p, l as int);
            }
            let ghost q = next_pos(self.levels(), p, l as int);
            match self.nodes[cur].next[l] {
                Some(j) => {
                    proof {
                        self.lemma_entry_at(q);
                    }
                    if self.nodes[j].key() == *k {
                        proof {
                            lemma_map_of_index(self.entries(), q);
                        }
                        return Some(self.nodes[j].value());
                    }
                },
                None => {},
            }
        }
        proof {
            lemma_next_pos_base(self.levels(), p);
            assert forall|i: int| 0 <= i < self.entries().len() implies self.entries()[i].0 != *k by {
                self.lemma_entry_at(i);
                if i < p {
                    self.lemma_key_order(i, p);
                } else if i > p + 1 {
                    self.lemma_key_order(p + 1, i);
                }
            }
        }
        None
    }
    proof fn lemma_at_injective(&self, a: int, b: int)
        requires
            self.wf(),
            -1 <= a < self.order@.len(),
            -1 <= b < self.order@.len(),
            self.at(a) == self.at(b),
        ensures
            a == b,
    {
        if a >= 0 {
            self.lemma_entry_at(a);
        }
        if b >= 0 {
            self.lemma_entry_at(b);
        }
        if a >= 0 && b >= 0 && a != b {
            if a < b {
                self.lemma_key_order(a, b);
            } else {
                self.lemma_key_order(b, a);
            }
        }
    }

    fn empty(max_level: usize) -> (s: Self)
        requires
            2 <= max_level,
        ensures
            s.wf(),
            s@ == Map::<u64, V>::empty(),
            s.entries().len() == 0,
            s.spec_max_level() == max_level,
            s.spec_level() == 0,
    {
        let mut nodes: Vec<Node<V>> = Vec::new();
        nodes.push(Node::sigil(max_level));
        let s = SkipList {
            nodes,
            free: Vec::new(),
            len: 0,
            level: 0,
            max_level,
            order: Ghost(Seq::empty()),
        };
        proof {
            assert(s.entries() =~= Seq::<(u64, V)>::empty());
            assert(s@ =~= Map::<u64, V>::empty());
            assert forall|p: int, l: int|
                -1 <= p < s.order@.len() && 0 <= l < s.max_level && (p == -1 || l
                    < s.levels()[p]) implies s.nodes@[s.at(p)].next@[l] == s.link(
                #[trigger] next_pos(s.levels(), p, l),
            ) by {
                assert(next_pos(s.levels(), p, l) == 0);
            }
        }
        s
    }

    /// A list with no entries whose levels run up to `max_level`, or `None`
    /// when `max_level` leaves no room for a level between 1 and itself.
    pub fn with_max_level(max_level: usize) -> (r: Option<Self>)
        ensures
            r is None <==> max_level < 2,
            r matches Some(s) ==> s.wf() && s@ == Map::<u64, V>::empty() && s.entries().len()
                == 0 && s.spec_max_level() == max_level && s.spec_level() == 0,
    {
        if max_level < 2 {
            None
        } else {
            Some(Self::empty(max_level))
        }
    }

    /// An empty list with the default number of levels.
    pub fn new() -> (r: Self)
        ensures
            r.wf(),
            r@ == Map::<u64, V>::empty(),
            r.entries().len() == 0,
            r.spec_max_level() == DEFAULT_MAX_LEVEL,
            r.spec_level() == 0,
    {
        Self::empty(DEFAULT_MAX_LEVEL)
    }

    /// The number of entries.
    pub fn len(&self) -> (r: usize)
        requires
            self.wf(),
        ensures
            r == self.entries().len(),
    {
        self.len
    }

    /// The number of levels in use.
    pub fn level(&self) -> (r: usize)
        ensures
            r == self.spec_level(),
    {
        self.level
    }

    /// The number of levels a node may take part in, plus one.
    pub fn max_level(&self) -> (r: usize)
        ensures
            r == self.spec_max_level(),
    {
        self.max_level
    }

    /// A level for a new node, drawn uniformly from `1..max_level`.
    pub fn random_level(&self) -> (r: usize)
        requires
            self.wf(),
        ensures
            1 <= r < self.spec_max_level(),
    {
        draw_level(self.max_level)
    }

    /// Descends from the top level to level 0, recording at each level the
    /// last node whose key is below `k`; returns those nodes, the last one at
    /// level 0, and their positions in key order.
    fn find_preds(&self, k: u64) -> (r: (Vec<usize>, usize, Ghost<Seq<int>>, Ghost<int>))
        requires
            self.wf(),
        ensures
            r.0@.len() == self.max_level,
            r.2@.len() == self.max_level,
            -1 <= r.3@ < self.order@.len(),
            r.1 == self.at(r.3@),
            r.3@ == -1 || self.key_at(r.3@) < k,
            r.3@ + 1 == self.order@.len() || k <= self.key_at(r.3@ + 1),
            forall|l: int|
                0 <= l < self.max_level ==> r.0@[l] == self.at(#[trigger] r.2@[l]) && -1 <= r.2@[l]
                    <= r.3@ && (r.2@[l] == -1 || l < self.levels()[r.2@[l]]) && r.3@ < next_pos(
                    self.levels(),
                    r.2@[l],
                    l,
                ),
    {
        let mut updates = sentinel_preds(self.max_level);
        let ghost mut ps: Seq<int> = Seq::new(self.max_level as nat, |i: int| -1int);
        let mut cur: usize = 0;
        let ghost mut p: int = -1;
        let mut l: usize = self.level;
        proof {
            self.lemma_levels();
            if self.level == 0 {
                assert(self.order@.len() == 0) by {
                    if self.order@.len() > 0 {
                        assert(1 <= self.levels()[0]);
                    }
                }
            }
            assert forall|i: int| self.level <= i < self.max_level implies next_pos(
                self.levels(),
                #[trigger] ps[i],
                i,
            ) == self.order@.len() by {
                lemma_next_pos(self.levels(), -1, i);
            }
        }
        while l > 0
            invariant
                self.wf(),
                l <= self.level,
                -1 <= p < self.order@.len(),
                cur == self.at(p),
                p == -1 || (l <= self.levels()[p] && self.key_at(p) < k),
                l == 0 ==> p + 1 == self.order@.len() || k <= self.key_at(p + 1),
                updates@.len() == self.max_level,
                ps.len() == self.max_level,
                forall|i: int| 0 <= i < self.max_level ==> updates@[i] == self.at(#[trigger] ps[i]),
                forall|i: int|
                    l <= i < self.max_level ==> -1 <= #[trigger] ps[i] <= p && (ps[i] == -1 || (i
                        < self.levels()[ps[i]] && self.key_at(ps[i]) < k)) && (next_pos(
                        self.levels(),
                        ps[i],
                        i,
                    ) == self.order@.len() || k <= self.key_at(next_pos(self.levels(), ps[i], i))),
            decreases l,
        {
            l -= 1;
            let (c, Ghost(pp)) = self.advance(cur, Ghost(p), l, k);
            cur = c;
            updates.set(l, cur);
            proof {
                p = pp;
                ps = ps.update(l as int, p);
                if l == 0 {
                    lemma_next_pos_base(self.levels(), p);
                }
            }
        }
        proof {
            assert forall|i: int| 0 <= i < self.max_level implies p < next_pos(self.levels(), #[trigger] ps[i], i) by {
                let q = next_pos(self.levels(), ps[i], i);
                lemma_next_pos(self.levels(), ps[i], i);
                if q <= p && q < self.order@.len() {
                    if q < p {
                        self.lemma_key_order(q, p);
                    }
                }
            }
        }
        (updates, cur, Ghost(ps), Ghost(p))
    }
    /// The facts `find_preds` gives about a search for `k`.
    pub closed spec fn preds_found(&self, k: u64, updates: Seq<usize>, ps: Seq<int>, p: int) -> bool {
        &&& updates.len() == self.max_level
        &&& ps.len() == self.max_level
        &&& -1 <= p < self.order@.len()
        &&& p == -1 || self.key_at(p) < k
        &&& p + 1 == self.order@.len() || k <= self.key_at(p + 1)
        &&& forall|l: int|
            0 <= l < self.max_level ==> updates[l] == self.at(#[trigger] ps[l]) && -1 <= ps[l] <= p
                && (ps[l] == -1 || l < self.levels()[ps[l]]) && p < next_pos(self.levels(), ps[l], l)
    }

    /// After a new node for `k` enters at `slot` between positions `p` and
    /// `p + 1`, spliced after `updates[l]` at each of its levels, the list is
    /// well formed again and holds the new entry at position `p + 1`.
    proof fn lemma_insert_wf(
        s0: Self,
        s: Self,
        k: u64,
        v: V,
        updates: Seq<usize>,
        ps: Seq<int>,
        p: int,
        slot: usize,
        lvl: usize,
    )
        requires
            s0.wf(),
            s0.preds_found(k, updates, ps, p),
            p + 1 == s0.order@.len() || k < s0.key_at(p + 1),
            1 <= lvl < s0.max_level,
            s.level == if lvl > s0.level { lvl } else { s0.level },
            s.max_level == s0.max_level,
            s.len == s0.len + 1,
            s.order@ == s0.order@.insert(p + 1, slot),
            (s0.free@.len() > 0 && slot == s0.free@.last() && s.free@ == s0.free@.drop_last()
                && s.nodes@.len() == s0.nodes@.len()) || (s.free@ == s0.free@ && slot
                == s0.nodes@.len() && s.nodes@.len() == s0.nodes@.len() + 1),
            s.nodes@[slot as int].entry == Some((k, v)),
            s.nodes@[slot as int].level == lvl,
            s.nodes@[slot as int].next@.len() == s0.max_level,
            forall|l: int|
                0 <= l < lvl ==> #[trigger] s.nodes@[slot as int].next@[l] == s0.nodes@[updates[l] as int].next@[l],
            forall|i: int|
                0 <= i < s.nodes@.len() && i != slot ==> (#[trigger] s.nodes@[i]).entry
                    == s0.nodes@[i].entry && s.nodes@[i].level == s0.nodes@[i].level
                    && s.nodes@[i].next@.len() == s0.max_level,
            forall|i: int, m: int|
                0 <= i < s.nodes@.len() && i != slot && 0 <= m < s0.max_level
                    ==> #[trigger] s.nodes@[i].next@[m] == if m < lvl && updates[m] == i {
                    Some(slot)
                } else {
                    s0.nodes@[i].next@[m]
                },
        ensures
            s.wf(),
            s.entries() == s0.entries().insert(p + 1, (k, v)),
    {
        let n0 = s0.order@.len();
        let j = p + 1;
        let lv0 = s0.levels();
        let lvs = s.levels();
        s0.lemma_levels();
        assert forall|x: int| 0 <= x < n0 implies s0.order@[x] != slot by {
            s0.lemma_entry_at(x);
            if s0.free@.len() > 0 && slot == s0.free@.last() {
                assert(s0.free@[s0.free@.len() - 1] == slot);
            }
        }
        assert forall|x: int| 0 <= x < n0 + 1 implies #[trigger] lvs[x] == lv0.insert(j, lvl as int)[x] by {
            if x < j {
                assert(s.order@[x] == s0.order@[x]);
            } else if x > j {
                assert(s.order@[x] == s0.order@[x - 1]);
            }
        }
        assert(lvs =~= lv0.insert(j, lvl as int));
        let e0 = s0.entries();
        assert forall|x: int| 0 <= x < n0 + 1 implies #[trigger] s.entries()[x] == e0.insert(j, (k, v))[x] by {
            if x < j {
                assert(s.order@[x] == s0.order@[x]);
            } else if x > j {
                assert(s.order@[x] == s0.order@[x - 1]);
            }
        }
        assert(s.entries() =~= e0.insert(j, (k, v)));
        let e = s.entries();
        assert forall|a: int, b: int| 0 <= a < b < e.len() implies e[a].0 < e[b].0 by {
            if a < j {
                s0.lemma_entry_at(a);
                if a < p {
                    s0.lemma_key_order(a, p);
                }
            }
            if b > j {
                s0.lemma_entry_at(b - 1);
                if b - 1 > j {
                    s0.lemma_key_order(j, b - 1);
                }
            }
            if a < j && b > j {
                if a < b - 1 {
                    s0.lemma_key_order(a, b - 1);
                }
            }
        }
        assert forall|x: int| 0 <= x < s.order@.len() implies s.live(#[trigger] s.order@[x]) by {
            if x < j {
                assert(s.order@[x] == s0.order@[x]);
                s0.lemma_entry_at(x);
            } else if x > j {
                assert(s.order@[x] == s0.order@[x - 1]);
                s0.lemma_entry_at(x - 1);
            }
        }
        assert forall|x: int| 0 <= x < s.free@.len() implies 1 <= #[trigger] s.free@[x] < s.nodes@.len()
            && s.nodes@[s.free@[x] as int].entry is None by {
            if s0.free@.len() > 0 && slot == s0.free@.last() {
                assert(s.free@[x] == s0.free@[x]);
                assert(s0.free@[x] != s0.free@[s0.free@.len() - 1]);
            } else {
                assert(s.free@[x] == s0.free@[x]);
            }
        }
        assert(s.free@.no_duplicates()) by {
            if s0.free@.len() > 0 && slot == s0.free@.last() {
                assert forall|a: int, b: int| 0 <= a < b < s.free@.len() implies s.free@[a] != s.free@[b] by {
                    assert(s.free@[a] == s0.free@[a]);
                    assert(s.free@[b] == s0.free@[b]);
                }
            }
        }
        Self::lemma_insert_links(s0, s, k, v, updates, ps, p, slot, lvl);
    }

    /// The links part of `lemma_insert_wf`.
    proof fn lemma_insert_links(
        s0: Self,
        s: Self,
        k: u64,
        v: V,
        updates: Seq<usize>,
        ps: Seq<int>,
        p: int,
        slot: usize,
        lvl: usize,
    )
        requires
            s0.wf(),
            s0.preds_found(k, updates, ps, p),
            p + 1 == s0.order@.len() || k < s0.key_at(p + 1),
            1 <= lvl < s0.max_level,
            s.level == if lvl > s0.level { lvl } else { s0.level },
            s.max_level == s0.max_level,
            s.len == s0.len + 1,
            s.order@ == s0.order@.insert(p + 1, slot),
            (s0.free@.len() > 0 && slot == s0.free@.last() && s.free@ == s0.free@.drop_last()
                && s.nodes@.len() == s0.nodes@.len()) || (s.free@ == s0.free@ && slot
                == s0.nodes@.len() && s.nodes@.len() == s0.nodes@.len() + 1),
            s.nodes@[slot as int].entry == Some((k, v)),
            s.nodes@[slot as int].level == lvl,
            s.nodes@[slot as int].next@.len() == s0.max_level,
            forall|l: int|
                0 <= l < lvl ==> #[trigger] s.nodes@[slot as int].next@[l] == s0.nodes@[updates[l] as int].next@[l],
            forall|i: int|
                0 <= i < s.nodes@.len() && i != slot ==> (#[trigger] s.nodes@[i]).entry
                    == s0.nodes@[i].entry && s.nodes@[i].level == s0.nodes@[i].level
                    && s.nodes@[i].next@.len() == s0.max_level,
            forall|i: int, m: int|
                0 <= i < s.nodes@.len() && i != slot && 0 <= m < s0.max_level
                    ==> #[trigger] s.nodes@[i].next@[m] == if m < lvl && updates[m] == i {
                    Some(slot)
                } else {
                    s0.nodes@[i].next@[m]
                },
            s.levels() == s0.levels().insert(p + 1, lvl as int),
            forall|x: int| 0 <= x < s0.order@.len() ==> s0.order@[x] != slot,
        ensures
            s.links_ok(),
    {
        let n0 = s0.order@.len();
        let j = p + 1;
        let lv0 = s0.levels();
        let lvs = s.levels();
        s0.lemma_levels();
        assert forall|q: int, l: int|
            -1 <= q < s.order@.len() && 0 <= l < s.max_level && (q == -1 || l < lvs[q]) implies
            s.nodes@[s.at(q)].next@[l] == s.link(#[trigger] next_pos(s.levels(), q, l)) by {
            if q == j {
                let q0 = next_pos(lv0, ps[l], l);
                s0.lemma_link(ps[l], l);
                lemma_next_pos(lv0, ps[l], l);
                lemma_next_pos_unique(lv0, p, l, q0);
                lemma_insert_from(lv0, j, lvl as int, l);
                assert(s.at(q) == slot);
                if q0 < n0 {
                    assert(s.order@[q0 + 1] == s0.order@[q0]);
                }
            } else {
                let op = if q < j { q } else { q - 1 };
                if q >= 0 {
                    assert(s.order@[q] == s0.order@[op]);
                    assert(lvs[q] == lv0[op]);
                    s0.lemma_entry_at(op);
                }
                assert(s.at(q) == s0.at(op));
                if l < lvl && updates[l] == s0.at(op) {
                    s0.lemma_at_injective(ps[l], op);
                    lemma_insert_into(lv0, j, lvl as int, op, l);
                } else {
                    s0.lemma_link(op, l);
                    if op < j <= next_pos(lv0, op, l) && l < lvl {
                        lemma_pred_unique(lv0, j, op, ps[l], l);
                    }
                    lemma_insert_other(lv0, j, lvl as int, op, l);
                    let q0 = next_pos(lv0, op, l);
                    if q0 < n0 {
                        if q0 >= j {
                            assert(s.order@[q0 + 1] == s0.order@[q0]);
                        } else {
                            assert(s.order@[q0] == s0.order@[q0]);
                        }
                    }
                }
            }
        }
    }

    /// Stores `v` under `k`. Returns the value that `k` held before, or
    /// `None` when `k` is new, in which case the list grows by one entry whose
    /// node takes part in a level count drawn by `random_level`.
    pub fn insert(&mut self, k: u64, v: V) -> (r: Option<V>)
        requires
            old(self).wf(),
        ensures
            final(self).wf(),
            final(self).spec_max_level() == old(self).spec_max_level(),
            final(self)@ == old(self)@.insert(k, v),
            match r {
                Some(w) => old(self)@.contains_key(k) && w == old(self)@[k],
                None => !old(self)@.contains_key(k),
            },
            r is Some ==> final(self).spec_level() == old(self).spec_level(),
            old(self).spec_level() <= final(self).spec_level() < final(self).spec_max_level(),
            final(self).entries().len() == old(self).entries().len() + if r is Some {
                0int
            } else {
                1int
            },
    {
        let level = self.random_level();
        self.insert_at_level(k, v, level)
    }

    /// Stores `v` under `k` as `insert` does; a node made for a new key takes
    /// part in levels `0..level`.
    pub fn insert_at_level(&mut self, k: u64, v: V, level: usize) -> (r: Option<V>)
        requires
            old(self).wf(),
            1 <= level < old(self).spec_max_level(),
        ensures
            final(self).wf(),
            final(self).spec_max_level() == old(self).spec_max_level(),
            final(self).spec_level() == if r is None && level > old(self).spec_level() {
                level as nat
            } else {
                old(self).spec_level()
            },
            final(self)@ == old(self)@.insert(k, v),
            match r {
                Some(w) => old(self)@.contains_key(k) && w == old(self)@[k],
                None => !old(self)@.contains_key(k),
            },
            final(self).entries().len() == old(self).entries().len() + if r is Some {
                0int
            } else {
                1int
            },
    {
        let (updates, cur, Ghost(ps), Ghost(p)) = self.find_preds(k);
        let ghost s0 = *self;
        proof {
            self.lemma_link(p, 0);
            self.lemma_levels();
            lemma_next_pos_base(self.levels(), p);
        }
        match self.nodes[cur].next[0] {
            Some(j) => {
                proof {
                    self.lemma_entry_at(p + 1);
                }
                if self.nodes[j].key() == k {
                    let mut e = Some((k, v));
                    std::mem::swap(&mut self.nodes[j].entry, &mut e);
                    proof {
                        let e0 = s0.entries();
                        lemma_map_of_index(e0, p + 1);
                        lemma_map_of_update(e0, p + 1, v);
                        assert(self.levels() =~= s0.levels());
                        assert(self.entries() =~= e0.update(p + 1, (k, v)));
                        assert forall|i: int| 0 <= i < self.nodes@.len() implies (#[trigger] self.nodes@[i]).next@.len() == self.max_level by {
                            assert(self.nodes@[i].next == s0.nodes@[i].next);
                        }
                        assert forall|x: int| 0 <= x < self.order@.len() implies self.live(#[trigger] self.order@[x]) by {
                            s0.lemma_entry_at(x);
                        }
                        assert forall|q: int, l: int|
                            -1 <= q < self.order@.len() && 0 <= l < self.max_level && (q == -1 || l < self.levels()[q]) implies
                            self.nodes@[self.at(q)].next@[l] == self.link(#[trigger] next_pos(self.levels(), q, l)) by {
                            s0.lemma_link(q, l);
                        }
                    }
                    return Some(e.unwrap().1);
                }
            },
            None => {},
        }
        proof {
            if p + 1 < self.order@.len() {
                self.lemma_entry_at(p + 1);
            }
            assert forall|i: int| 0 <= i < self.entries().len() implies self.entries()[i].0 != k by {
                self.lemma_entry_at(i);
                if i < p {
                    self.lemma_key_order(i, p);
                } else if i > p + 1 {
                    self.lemma_key_order(p + 1, i);
                }
            }
        }
        let lvl = level;
        if lvl > self.level {
            self.level = lvl;
        }
        let mut node = Node::new(k, v, lvl, self.max_level);
        let mut l: usize = 0;
        while l < lvl
            invariant
                s0.wf(),
                s0.preds_found(k, updates@, ps, p),
                lvl < s0.max_level,
                self.nodes == s0.nodes,
                node.entry == Some((k, v)),
                node.level == lvl,
                node.next@.len() == s0.max_level,
                l <= lvl,
                forall|i: int| 0 <= i < l ==> #[trigger] node.next@[i] == s0.nodes@[updates@[i] as int].next@[i],
            decreases lvl - l,
        {
            proof {
                s0.lemma_link(ps[l as int], l as int);
            }
            let u = updates[l];
            node.next.set(l, self.nodes[u].next[l]);
            l += 1;
        }
        let slot: usize;
        if self.free.len() > 0 {
            slot = self.free.pop().unwrap();
            proof {
                assert(s0.free@[s0.free@.len() - 1] == slot);
            }
            self.nodes.set(slot, node);
        } else {
            slot = self.nodes.len();
            self.nodes.push(node);
        }
        let ghost s1 = *self;
        // The arena's length, a usize, bounds the entry count from above.
        let arena_len = self.nodes.len();
        proof {
            assert(s0.len + 1 < arena_len);
            assert forall|m: int| 0 <= m < s0.max_level implies #[trigger] updates@[m] != slot && updates@[m] < s0.nodes@.len() by {
                if ps[m] >= 0 {
                    s0.lemma_entry_at(ps[m]);
                }
                if s0.free@.len() > 0 && slot == s0.free@.last() {
                    assert(s0.free@[s0.free@.len() - 1] == slot);
                }
            }
            assert forall|x: int| 0 <= x < s0.order@.len() implies s0.order@[x] != slot by {
                s0.lemma_entry_at(x);
                if s0.free@.len() > 0 && slot == s0.free@.last() {
                    assert(s0.free@[s0.free@.len() - 1] == slot);
                }
            }
        }
        l = 0;
        while l < lvl
            invariant
                s0.wf(),
                s0.preds_found(k, updates@, ps, p),
                lvl < s0.max_level,
                1 <= slot < self.nodes@.len(),
                l <= lvl,
                forall|m: int| 0 <= m < s0.max_level ==> #[trigger] updates@[m] != slot && updates@[m] < s0.nodes@.len(),
                s0.nodes@.len() <= self.nodes@.len(),
                self.nodes@.len() == s1.nodes@.len(),
                self.nodes@[slot as int] == s1.nodes@[slot as int],
                forall|i: int|
                    0 <= i < self.nodes@.len() && i != slot ==> (#[trigger] self.nodes@[i]).entry
                        == s1.nodes@[i].entry && self.nodes@[i].level == s1.nodes@[i].level
                        && self.nodes@[i].next@.len() == s0.max_level,
                forall|i: int, m: int|
                    0 <= i < self.nodes@.len() && i != slot && 0 <= m < s0.max_level
                        ==> #[trigger] self.nodes@[i].next@[m] == if m < l && updates@[m] == i {
                        Some(slot)
                    } else {
                        s0.nodes@[i].next@[m]
                    },
                self.free == s1.free,
                self.level == s1.level,
                self.max_level == s1.max_level,
                self.len == s1.len,
                self.order == s1.order,
            decreases lvl - l,
        {
            let u = updates[l];
            proof {
                s0.lemma_link(ps[l as int], l as int);
            }
            self.nodes[u].next.set(l, Some(slot));
            l += 1;
        }
        self.len = self.len + 1;
        self.order = Ghost(self.order@.insert(p + 1, slot));
        proof {
            Self::lemma_insert_wf(s0, *self, k, v, updates@, ps, p, slot, lvl);
            lemma_map_of_insert(s0.entries(), p + 1, k, v);
        }
        None
    }
    /// A key that lies strictly between the keys at positions `p` and `p + 1`
    /// is absent.
    proof fn lemma_absent(&self, k: u64, p: int)
        requires
            self.wf(),
            -1 <= p < self.order@.len(),
            p == -1 || self.key_at(p) < k,
            p + 1 == self.order@.len() || k < self.key_at(p + 1),
        ensures
            !self@.contains_key(k),
    {
        assert forall|i: int| 0 <= i < self.entries().len() implies self.entries()[i].0 != k by {
            self.lemma_entry_at(i);
            if i < p {
                self.lemma_key_order(i, p);
            } else if i > p + 1 {
                self.lemma_key_order(p + 1, i);
            }
        }
    }

    /// After the node `tn` at position `t = p + 1` is unlinked from each of its
    /// levels and its slot vacated, the list is well formed again without it.
    proof fn lemma_delete_wf(
        s0: Self,
        s: Self,
        k: u64,
        updates: Seq<usize>,
        ps: Seq<int>,
        p: int,
        tn: usize,
    )
        requires
            s0.wf(),
            s0.preds_found(k, updates, ps, p),
            p + 1 < s0.order@.len(),
            s0.order@[p + 1] == tn,
            s0.key_at(p + 1) == k,
            s.level == s0.level,
            s.max_level == s0.max_level,
            s.len == s0.len - 1,
            s.order@ == s0.order@.remove(p + 1),
            s.free@ == s0.free@.push(tn),
            s.nodes@.len() == s0.nodes@.len(),
            s.nodes@[tn as int].entry is None,
            s.nodes@[tn as int].next@.len() == s0.max_level,
            forall|i: int|
                0 <= i < s.nodes@.len() && i != tn ==> (#[trigger] s.nodes@[i]).entry
                    == s0.nodes@[i].entry && s.nodes@[i].level == s0.nodes@[i].level
                    && s.nodes@[i].next@.len() == s0.max_level,
            forall|i: int, m: int|
                0 <= i < s.nodes@.len() && i != tn && 0 <= m < s0.max_level
                    ==> #[trigger] s.nodes@[i].next@[m] == if m < s0.nodes@[tn as int].level
                    && updates[m] == i {
                    s0.nodes@[tn as int].next@[m]
                } else {
                    s0.nodes@[i].next@[m]
                },
        ensures
            s.wf(),
            s.entries() == s0.entries().remove(p + 1),
    {
        let n0 = s0.order@.len();
        let t = p + 1;
        let lv0 = s0.levels();
        let lvs = s.levels();
        s0.lemma_levels();
        s0.lemma_entry_at(t);
        assert forall|x: int| 0 <= x < n0 - 1 implies #[trigger] lvs[x] == lv0.remove(t)[x] by {
            let ox = if x < t { x } else { x + 1 };
            assert(s.order@[x] == s0.order@[ox]);
            if s0.order@[ox] == tn {
                s0.lemma_at_injective(ox, t);
            }
        }
        assert(lvs =~= lv0.remove(t));
        let e0 = s0.entries();
        assert forall|x: int| 0 <= x < n0 - 1 implies #[trigger] s.entries()[x] == e0.remove(t)[x] by {
            let ox = if x < t { x } else { x + 1 };
            assert(s.order@[x] == s0.order@[ox]);
            if s0.order@[ox] == tn {
                s0.lemma_at_injective(ox, t);
            }
        }
        assert(s.entries() =~= e0.remove(t));
        lemma_map_of_remove(e0, t);
        assert forall|x: int| 0 <= x < s.order@.len() implies s.live(#[trigger] s.order@[x]) by {
            let ox = if x < t { x } else { x + 1 };
            assert(s.order@[x] == s0.order@[ox]);
            s0.lemma_entry_at(ox);
            if s0.order@[ox] == tn {
                s0.lemma_at_injective(ox, t);
            }
        }
        assert forall|x: int| 0 <= x < s.free@.len() implies 1 <= #[trigger] s.free@[x] < s.nodes@.len()
            && s.nodes@[s.free@[x] as int].entry is None by {
            if x < s0.free@.len() {
                assert(s.free@[x] == s0.free@[x]);
            }
        }
        assert(s.free@.no_duplicates()) by {
            assert forall|a: int, b: int| 0 <= a < b < s.free@.len() implies s.free@[a] != s.free@[b] by {
                assert(s.free@[a] == s0.free@[a]);
                if b < s0.free@.len() {
                    assert(s.free@[b] == s0.free@[b]);
                }
            }
        }
        assert forall|q: int, l: int|
            -1 <= q < s.order@.len() && 0 <= l < s.max_level && (q == -1 || l < lvs[q]) implies
            s.nodes@[s.at(q)].next@[l] == s.link(#[trigger] next_pos(s.levels(), q, l)) by {
            let op = if q < t { q } else { q + 1 };
            if q >= 0 {
                assert(s.order@[q] == s0.order@[op]);
                assert(lvs[q] == lv0[op]);
                s0.lemma_entry_at(op);
            }
            assert(s.at(q) == s0.at(op));
            if s0.at(op) == tn {
                s0.lemma_at_injective(op, t);
            }
            lemma_next_pos(lv0, ps[l], l);
            if l < lv0[t] && updates[l] == s0.at(op) {
                s0.lemma_at_injective(ps[l], op);
                s0.lemma_link(t, l);
                lemma_next_pos_unique(lv0, op, l, t);
                lemma_remove_into(lv0, t, op, l);
                let q0 = next_pos(lv0, t, l);
                lemma_next_pos(lv0, t, l);
                if q0 < n0 {
                    assert(s.order@[q0 - 1] == s0.order@[q0]);
                }
            } else {
                s0.lemma_link(op, l);
                lemma_next_pos(lv0, op, l);
                if next_pos(lv0, op, l) == t {
                    lemma_pred_unique(lv0, t, op, ps[l], l);
                }
                lemma_remove_other(lv0, t, op, l);
                let q0 = next_pos(lv0, op, l);
                if q0 < n0 {
                    if q0 > t {
                        assert(s.order@[q0 - 1] == s0.order@[q0]);
                    } else {
                        assert(s.order@[q0] == s0.order@[q0]);
                    }
                }
            }
        }
    }

    /// Removes `k`. Returns the value it held, or `None` when it was absent,
    /// in which case nothing changes.
    pub fn delete(&mut self, k: &u64) -> (r: Option<V>)
        requires
            old(self).wf(),
        ensures
            final(self).wf(),
            final(self).spec_max_level() == old(self).spec_max_level(),
            final(self).spec_level() == old(self).spec_level(),
            final(self)@ == old(self)@.remove(*k),
            match r {
                Some(w) => old(self)@.contains_key(*k) && w == old(self)@[*k],
                None => !old(self)@.contains_key(*k) && *final(self) == *old(self),
            },
            final(self).entries().len() == old(self).entries().len() - if r is Some {
                1int
            } else {
                0int
            },
    {
        let (updates, cur, Ghost(ps), Ghost(p)) = self.find_preds(*k);
        let ghost s0 = *self;
        proof {
            self.lemma_link(p, 0);
            self.lemma_levels();
            lemma_next_pos_base(self.levels(), p);
        }
        let tn = match self.nodes[cur].next[0] {
            None => {
                proof {
                    self.lemma_absent(*k, p);
                    assert(self@.remove(*k) =~= self@);
                }
                return None;
            },
            Some(j) => j,
        };
        proof {
            self.lemma_entry_at(p + 1);
        }
        if self.nodes[tn].key() != *k {
            proof {
                self.lemma_absent(*k, p);
                assert(self@.remove(*k) =~= self@);
            }
            return None;
        }
        let lvl = self.nodes[tn].level;
        let ghost t = p + 1;
        proof {
            assert forall|m: int| 0 <= m < s0.max_level implies #[trigger] updates@[m] != tn && updates@[m] < s0.nodes@.len() by {
                if ps[m] >= 0 {
                    s0.lemma_entry_at(ps[m]);
                }
                if updates@[m] == tn {
                    s0.lemma_at_injective(ps[m], t);
                }
            }
        }
        let mut l: usize = 0;
        while l < lvl
            invariant
                s0.wf(),
                s0.preds_found(*k, updates@, ps, p),
                lvl == s0.nodes@[tn as int].level,
                lvl < s0.max_level,
                l <= lvl,
                1 <= tn < s0.nodes@.len(),
                forall|m: int| 0 <= m < s0.max_level ==> #[trigger] updates@[m] != tn && updates@[m] < s0.nodes@.len(),
                self.nodes@.len() == s0.nodes@.len(),
                self.nodes@[tn as int] == s0.nodes@[tn as int],
                forall|i: int|
                    0 <= i < self.nodes@.len() && i != tn ==> (#[trigger] self.nodes@[i]).entry
                        == s0.nodes@[i].entry && self.nodes@[i].level == s0.nodes@[i].level
                        && self.nodes@[i].next@.len() == s0.max_level,
                forall|i: int, m: int|
                    0 <= i < self.nodes@.len() && i != tn && 0 <= m < s0.max_level
                        ==> #[trigger] self.nodes@[i].next@[m] == if m < l && updates@[m] == i {
                        s0.nodes@[tn as int].next@[m]
                    } else {
                        s0.nodes@[i].next@[m]
                    },
                self.free == s0.free,
                self.level == s0.level,
                self.max_level == s0.max_level,
                self.len == s0.len,
                self.order == s0.order,
            decreases lvl - l,
        {
            let u = updates[l];
            let nx = self.nodes[tn].next[l];
            self.nodes[u].next.set(l, nx);
            l += 1;
        }
        let mut e: Option<(u64, V)> = None;
        std::mem::swap(&mut self.nodes[tn].entry, &mut e);
        self.free.push(tn);
        self.len = self.len - 1;
        self.order = Ghost(self.order@.remove(p + 1));
        proof {
            Self::lemma_delete_wf(s0, *self, *k, updates@, ps, p, tn);
            lemma_map_of_remove(s0.entries(), p + 1);
            lemma_map_of_index(s0.entries(), p + 1);
        }
        Some(e.unwrap().1)
    }
    /// The level-0 chain runs from the sentinel through every entry in key
    /// order.
    pub(crate) proof fn lemma_chain(&self)
        requires
            self.wf(),
        ensures
            self.entries().len() == self.order@.len() == self.len,
            self.key_order() == self.order@,
            self.arena() == self.nodes@,
            self.nodes@.len() >= 1,
            self.nodes@[0].next@.len() >= 1,
            self.nodes@[0].next@[0] == if self.order@.len() > 0 {
                Some(self.order@[0])
            } else {
                None
            },
            forall|x: int|
                0 <= x < self.order@.len() ==> #[trigger] self.order@[x] < self.nodes@.len()
                    && self.nodes@[self.order@[x] as int].entry is Some
                    && self.nodes@[self.order@[x] as int].next@.len() >= 1
                    && self.nodes@[self.order@[x] as int].next@[0] == (if x + 1 < self.order@.len() {
                    Some(self.order@[x + 1])
                } else {
                    None
                }) && self.entries()[x] == self.nodes@[self.order@[x] as int].entry->Some_0,
    {
        self.lemma_levels();
        self.lemma_link(-1, 0);
        lemma_next_pos_base(self.levels(), -1);
        assert forall|x: int| 0 <= x < self.order@.len() implies #[trigger] self.order@[x] < self.nodes@.len()
            && self.nodes@[self.order@[x] as int].entry is Some
            && self.nodes@[self.order@[x] as int].next@.len() >= 1
            && self.nodes@[self.order@[x] as int].next@[0] == (if x + 1 < self.order@.len() {
            Some(self.order@[x + 1])
        } else {
            None
        }) && self.entries()[x] == self.nodes@[self.order@[x] as int].entry->Some_0 by {
            self.lemma_entry_at(x);
            self.lemma_link(x, 0);
            lemma_next_pos_base(self.levels(), x);
        }
    }
    /// No arena index appears twice in the key order.
    pub(crate) proof fn lemma_order_distinct(&self)
        requires
            self.wf(),
        ensures
            self.order@.no_duplicates(),
    {
        assert forall|a: int, b: int| 0 <= a < self.order@.len() && 0 <= b < self.order@.len() && a != b implies self.order@[a] != self.order@[b] by {
            if self.order@[a] == self.order@[b] {
                self.lemma_at_injective(a, b);
            }
        }
    }
    /// This list with its arena replaced by `nodes`.
    pub closed spec fn with_nodes(self, nodes: Vec<Node<V>>) -> Self {
        SkipList { nodes, ..self }
    }

    /// The arena of this list.
    pub closed spec fn arena(&self) -> Seq<Node<V>> {
        self.nodes@
    }

    /// The arena indices of the entries, in key order.
    pub closed spec fn key_order(&self) -> Seq<usize> {
        self.order@
    }

    /// Changing the values of entries in place, and nothing else, keeps a
    /// list well formed: its entries keep their keys and their order, and take
    /// the values now in the arena.
    pub proof fn lemma_values_replaced(self, nodes: Vec<Node<V>>)
        requires
            self.wf(),
            same_shape(self.arena(), nodes@),
        ensures
            self.with_nodes(nodes).wf(),
            self.with_nodes(nodes).entries().len() == self.entries().len(),
            forall|x: int|
                0 <= x < self.entries().len() ==> #[trigger] self.with_nodes(nodes).entries()[x] == (
                self.entries()[x].0,
                nodes@[self.key_order()[x] as int].entry->Some_0.1,
            ),
    {
        let s = self.with_nodes(nodes);
        assert(s.levels() =~= self.levels());
        assert forall|x: int| 0 <= x < self.entries().len() implies #[trigger] s.entries()[x] == (
            self.entries()[x].0,
            nodes@[self.key_order()[x] as int].entry->Some_0.1,
        ) by {
            self.lemma_entry_at(x);
        }
        assert forall|i: int| 0 <= i < s.nodes@.len() implies (#[trigger] s.nodes@[i]).next@.len()
            == s.max_level by {
            assert(s.nodes@[i].next == self.nodes@[i].next);
        }
        assert forall|x: int| 0 <= x < s.order@.len() implies s.live(#[trigger] s.order@[x]) by {
            self.lemma_entry_at(x);
        }
        assert forall|a: int, b: int| 0 <= a < b < s.entries().len() implies s.entries()[a].0 < s.entries()[b].0 by {
            self.lemma_key_order(a, b);
            self.lemma_entry_at(a);
            self.lemma_entry_at(b);
        }
        assert forall|q: int, l: int|
            -1 <= q < s.order@.len() && 0 <= l < s.max_level && (q == -1 || l < s.levels()[q]) implies
            s.nodes@[s.at(q)].next@[l] == s.link(#[trigger] next_pos(s.levels(), q, l)) by {
            self.lemma_link(q, l);
        }
    }
    /// The level-0 link of the sentinel: the arena index of the first entry.
    pub(crate) fn first_link(&self) -> (r: Option<usize>)
        requires
            self.wf(),
        ensures
            r == self.nodes@[0].next@[0],
    {
        self.nodes[0].next[0]
    }

    /// Lends out the arena; the list holds whatever it is left as.
    pub(crate) fn arena_mut(&mut self) -> (r: &mut Vec<Node<V>>)
        ensures
            *r == old(self).nodes,
            *final(self) == old(self).with_nodes(*final(r)),
    {
        &mut self.nodes
    }
    /// The entries of a well-formed list are in strictly increasing key order.
    pub proof fn lemma_sorted(&self)
        requires
            self.wf(),
        ensures
            sorted_keys(self.entries()),
    {
    }
}

impl<V> Default for SkipList<V> {
    /// An empty list with the default number of levels.
    fn default() -> (r: Self)
        ensures
            r.wf(),
            r@ == Map::<u64, V>::empty(),
            r.entries().len() == 0,
            r.spec_max_level() == DEFAULT_MAX_LEVEL,
            r.spec_level() == 0,
    {
        Self::new()
    }
}

} // verus!
