//! The mathematical model of a skip list: its entries in key order, and the
//! map from keys to values that they denote.
use vstd::prelude::*;

verus! {

/// Keys strictly increase along the sequence, so no key appears twice.
pub open spec fn sorted_keys<V>(e: Seq<(u64, V)>) -> bool {
    forall|i: int, j: int| 0 <= i < j < e.len() ==> e[i].0 < e[j].0
}

pub open spec fn has_key<V>(e: Seq<(u64, V)>, k: u64) -> bool {
    exists|i: int| 0 <= i < e.len() && e[i].0 == k
}

/// The map from keys to values that a sequence of entries denotes.
pub open spec fn map_of<V>(e: Seq<(u64, V)>) -> Map<u64, V> {
    Map::new(
        |k: u64| has_key(e, k),
        |k: u64| e[choose|i: int| 0 <= i < e.len() && e[i].0 == k].1,
    )
}

pub proof fn lemma_map_of_index<V>(e: Seq<(u64, V)>, i: int)
    requires
        sorted_keys(e),
        0 <= i < e.len(),
    ensures
        map_of(e).contains_key(e[i].0),
        map_of(e)[e[i].0] == e[i].1,
{
    let k = e[i].0;
    assert(has_key(e, k));
    let c = choose|c: int| 0 <= c < e.len() && e[c].0 == k;
    assert(c == i) by {
        if c < i {
            assert(e[c].0 < e[i].0);
        } else if c > i {
            assert(e[i].0 < e[c].0);
        }
    }
}

pub proof fn lemma_map_of_insert<V>(e: Seq<(u64, V)>, j: int, k: u64, v: V)
    requires
        sorted_keys(e),
        0 <= j <= e.len(),
        sorted_keys(e.insert(j, (k, v))),
    ensures
        map_of(e.insert(j, (k, v))) == map_of(e).insert(k, v),
{
    let e2 = e.insert(j, (k, v));
    let m = map_of(e);
    let m2 = map_of(e2);
    assert forall|x: u64| #[trigger] m2.contains_key(x) <==> m.insert(k, v).contains_key(x) by {
        if m2.contains_key(x) && x != k {
            let i = choose|i: int| 0 <= i < e2.len() && e2[i].0 == x;
            if i < j {
                assert(e[i] == e2[i]);
            } else {
                assert(e[i - 1] == e2[i]);
            }
        }
        if m.contains_key(x) {
            let i = choose|i: int| 0 <= i < e.len() && e[i].0 == x;
            if i < j {
                assert(e[i] == e2[i]);
            } else {
                assert(e[i] == e2[i + 1]);
            }
        }
        if x == k {
            assert(e2[j].0 == k);
        }
    }
    assert forall|x: u64| #[trigger] m2.contains_key(x) implies m2[x] == m.insert(k, v)[x] by {
        let i = choose|i: int| 0 <= i < e2.len() && e2[i].0 == x;
        lemma_map_of_index(e2, i);
        assert(e2[j] == (k, v));
        if i < j {
            assert(e2[i].0 < e2[j].0);
            assert(e[i] == e2[i]);
            lemma_map_of_index(e, i);
        } else if i > j {
            assert(e2[j].0 < e2[i].0);
            assert(e[i - 1] == e2[i]);
            lemma_map_of_index(e, i - 1);
        }
    }
    assert(m2 =~= m.insert(k, v));
}

pub proof fn lemma_map_of_update<V>(e: Seq<(u64, V)>, j: int, v: V)
    requires
        sorted_keys(e),
        0 <= j < e.len(),
    ensures
        sorted_keys(e.update(j, (e[j].0, v))),
        map_of(e.update(j, (e[j].0, v))) == map_of(e).insert(e[j].0, v),
{
    let k = e[j].0;
    let e2 = e.update(j, (k, v));
    let m = map_of(e);
    let m2 = map_of(e2);
    assert(sorted_keys(e2));
    assert forall|x: u64| #[trigger] m2.contains_key(x) <==> m.insert(k, v).contains_key(x) by {
        if m2.contains_key(x) {
            let i = choose|i: int| 0 <= i < e2.len() && e2[i].0 == x;
            assert(e[i].0 == x);
        }
        if m.contains_key(x) {
            let i = choose|i: int| 0 <= i < e.len() && e[i].0 == x;
            assert(e2[i].0 == x);
        }
        if x == k {
            assert(e2[j].0 == k);
        }
    }
    assert forall|x: u64| #[trigger] m2.contains_key(x) implies m2[x] == m.insert(k, v)[x] by {
        let i = choose|i: int| 0 <= i < e2.len() && e2[i].0 == x;
        lemma_map_of_index(e2, i);
        if i != j {
            lemma_map_of_index(e, i);
        }
    }
    assert(m2 =~= m.insert(k, v));
}

pub proof fn lemma_map_of_remove<V>(e: Seq<(u64, V)>, j: int)
    requires
        sorted_keys(e),
        0 <= j < e.len(),
    ensures
        sorted_keys(e.remove(j)),
        map_of(e.remove(j)) == map_of(e).remove(e[j].0),
{
    let k = e[j].0;
    let e2 = e.remove(j);
    let m = map_of(e);
    let m2 = map_of(e2);
    assert forall|a: int, b: int| 0 <= a < b < e2.len() implies e2[a].0 < e2[b].0 by {
        let a1 = if a < j { a } else { a + 1 };
        let b1 = if b < j { b } else { b + 1 };
        assert(e2[a] == e[a1]);
        assert(e2[b] == e[b1]);
    }
    assert forall|x: u64| #[trigger] m2.contains_key(x) <==> m.remove(k).contains_key(x) by {
        if m2.contains_key(x) {
            let i = choose|i: int| 0 <= i < e2.len() && e2[i].0 == x;
            let i1 = if i < j { i } else { i + 1 };
            assert(e2[i] == e[i1]);
            assert(e[i1].0 != k);
        }
        if m.contains_key(x) && x != k {
            let i = choose|i: int| 0 <= i < e.len() && e[i].0 == x;
            if i < j {
                assert(e2[i] == e[i]);
            } else {
                assert(e2[i - 1] == e[i]);
            }
        }
    }
    assert forall|x: u64| #[trigger] m2.contains_key(x) implies m2[x] == m.remove(k)[x] by {
        let i = choose|i: int| 0 <= i < e2.len() && e2[i].0 == x;
        lemma_map_of_index(e2, i);
        let i1 = if i < j { i } else { i + 1 };
        assert(e2[i] == e[i1]);
        lemma_map_of_index(e, i1);
    }
    assert(m2 =~= m.remove(k));
}

} // verus!
