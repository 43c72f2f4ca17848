//! Where each level's chain goes, stated over the sequence of node levels
//! taken in key order. Position `-1` stands for the sentinel, which takes
//! part in every level.
use vstd::prelude::*;

verus! {

/// The first position after `p` whose node takes part in level `l`
/// (its level exceeds `l`), or `lvs.len()` when no such position exists.
pub open spec fn next_pos(lvs: Seq<int>, p: int, l: int) -> int
    decreases lvs.len() - p,
{
    if p + 1 >= lvs.len() {
        lvs.len() as int
    } else if lvs[p + 1] > l {
        p + 1
    } else {
        next_pos(lvs, p + 1, l)
    }
}

/// `q` is the position that a level-`l` link leaving position `p` reaches:
/// every node strictly between stays below level `l`, and `q` is either past
/// the end or a node that takes part in level `l`.
pub open spec fn is_next_pos(lvs: Seq<int>, p: int, l: int, q: int) -> bool {
    &&& p < q <= lvs.len()
    &&& q < lvs.len() ==> lvs[q] > l
    &&& forall|r: int| p < r < q ==> lvs[r] <= l
}

pub proof fn lemma_next_pos(lvs: Seq<int>, p: int, l: int)
    requires
        -1 <= p < lvs.len(),
    ensures
        is_next_pos(lvs, p, l, next_pos(lvs, p, l)),
    decreases lvs.len() - p,
{
    if p + 1 < lvs.len() && lvs[p + 1] <= l {
        lemma_next_pos(lvs, p + 1, l);
    }
}

pub proof fn lemma_next_pos_unique(lvs: Seq<int>, p: int, l: int, q: int)
    requires
        -1 <= p,
        is_next_pos(lvs, p, l, q),
    ensures
        next_pos(lvs, p, l) == q,
    decreases lvs.len() - p,
{
    if p + 1 < lvs.len() && q != p + 1 {
        assert(lvs[p + 1] <= l);
        lemma_next_pos_unique(lvs, p + 1, l, q);
    }
}

/// At level 0 every node takes part, so the link leads to the next position.
pub proof fn lemma_next_pos_base(lvs: Seq<int>, p: int)
    requires
        -1 <= p < lvs.len(),
        forall|r: int| 0 <= r < lvs.len() ==> lvs[r] >= 1,
    ensures
        next_pos(lvs, p, 0) == p + 1,
{
    lemma_next_pos_unique(lvs, p, 0, p + 1);
}

/// Where a node of level `nl` enters at position `j`, a link that it does not
/// intercept keeps its target, shifted past the new position.
pub proof fn lemma_insert_other(lvs: Seq<int>, j: int, nl: int, p: int, l: int)
    requires
        0 <= j <= lvs.len(),
        -1 <= p < lvs.len(),
        !(p < j <= next_pos(lvs, p, l) && l < nl),
    ensures
        next_pos(lvs.insert(j, nl), if p >= j { p + 1 } else { p }, l) == if next_pos(
            lvs,
            p,
            l,
        ) >= j {
            next_pos(lvs, p, l) + 1
        } else {
            next_pos(lvs, p, l)
        },
{
    let q = next_pos(lvs, p, l);
    let lvs2 = lvs.insert(j, nl);
    lemma_next_pos(lvs, p, l);
    let ps = if p >= j { p + 1 } else { p };
    let qs = if q >= j { q + 1 } else { q };
    assert forall|r: int| ps < r < qs implies lvs2[r] <= l by {
        if r < j {
            assert(lvs2[r] == lvs[r]);
        } else if r > j {
            assert(lvs2[r] == lvs[r - 1]);
        }
    }
    if qs < lvs2.len() {
        assert(lvs2[qs] == lvs[q]);
    }
    lemma_next_pos_unique(lvs2, ps, l, qs);
}

/// A link that the new node intercepts now leads to it.
pub proof fn lemma_insert_into(lvs: Seq<int>, j: int, nl: int, p: int, l: int)
    requires
        0 <= j <= lvs.len(),
        -1 <= p < j <= next_pos(lvs, p, l),
        l < nl,
    ensures
        next_pos(lvs.insert(j, nl), p, l) == j,
{
    let lvs2 = lvs.insert(j, nl);
    lemma_next_pos(lvs, p, l);
    assert forall|r: int| p < r < j implies lvs2[r] <= l by {
        assert(lvs2[r] == lvs[r]);
    }
    lemma_next_pos_unique(lvs2, p, l, j);
}

/// The new node's own link leads where a link from just before it led.
pub proof fn lemma_insert_from(lvs: Seq<int>, j: int, nl: int, l: int)
    requires
        0 <= j <= lvs.len(),
    ensures
        next_pos(lvs.insert(j, nl), j, l) == next_pos(lvs, j - 1, l) + 1,
{
    let lvs2 = lvs.insert(j, nl);
    let q = next_pos(lvs, j - 1, l);
    lemma_next_pos(lvs, j - 1, l);
    assert forall|r: int| j < r < q + 1 implies lvs2[r] <= l by {
        assert(lvs2[r] == lvs[r - 1]);
    }
    if q + 1 < lvs2.len() {
        assert(lvs2[q + 1] == lvs[q]);
    }
    lemma_next_pos_unique(lvs2, j, l, q + 1);
}

/// Only one position at or before `j - 1` that takes part in level `l` has a
/// level-`l` link reaching past it.
pub proof fn lemma_pred_unique(lvs: Seq<int>, j: int, p: int, ps: int, l: int)
    requires
        0 <= j <= lvs.len(),
        -1 <= p < j <= next_pos(lvs, p, l),
        -1 <= ps < j <= next_pos(lvs, ps, l),
        p == -1 || lvs[p] > l,
        ps == -1 || lvs[ps] > l,
    ensures
        p == ps,
{
    lemma_next_pos(lvs, p, l);
    lemma_next_pos(lvs, ps, l);
}

/// Where the node at position `t` leaves, a link that did not lead to it keeps
/// its target, shifted back over the gap.
pub proof fn lemma_remove_other(lvs: Seq<int>, t: int, p: int, l: int)
    requires
        0 <= t < lvs.len(),
        -1 <= p < lvs.len(),
        p != t,
        next_pos(lvs, p, l) != t,
    ensures
        next_pos(lvs.remove(t), if p > t { p - 1 } else { p }, l) == if next_pos(lvs, p, l)
            > t {
            next_pos(lvs, p, l) - 1
        } else {
            next_pos(lvs, p, l)
        },
{
    let q = next_pos(lvs, p, l);
    let lvs2 = lvs.remove(t);
    lemma_next_pos(lvs, p, l);
    let ps = if p > t { p - 1 } else { p };
    let qs = if q > t { q - 1 } else { q };
    assert forall|r: int| ps < r < qs implies lvs2[r] <= l by {
        if r < t {
            assert(lvs2[r] == lvs[r]);
        } else {
            assert(lvs2[r] == lvs[r + 1]);
        }
    }
    if qs < lvs2.len() {
        if q < t {
            assert(lvs2[qs] == lvs[q]);
        } else {
            assert(lvs2[qs] == lvs[q]);
        }
    }
    lemma_next_pos_unique(lvs2, ps, l, qs);
}

/// A link that led to the removed node now leads where the removed node's
/// own link led.
pub proof fn lemma_remove_into(lvs: Seq<int>, t: int, p: int, l: int)
    requires
        0 <= t < lvs.len(),
        -1 <= p < t,
        next_pos(lvs, p, l) == t,
    ensures
        next_pos(lvs.remove(t), p, l) == next_pos(lvs, t, l) - 1,
{
    let lvs2 = lvs.remove(t);
    let q = next_pos(lvs, t, l);
    lemma_next_pos(lvs, p, l);
    lemma_next_pos(lvs, t, l);
    assert forall|r: int| p < r < q - 1 implies lvs2[r] <= l by {
        if r < t {
            assert(lvs2[r] == lvs[r]);
        } else {
            assert(lvs2[r] == lvs[r + 1]);
        }
    }
    if q - 1 < lvs2.len() {
        assert(lvs2[q - 1] == lvs[q]);
    }
    lemma_next_pos_unique(lvs2, p, l, q - 1);
}

} // verus!
