//! Properties that hold across several operations on a skip list, stated
//! over the views that the operations' own contracts use.
use vstd::prelude::*;
use crate::list::SkipList;
use crate::model::{map_of, sorted_keys};

verus! {

/// The map that inserting the pairs of `ins` one after another into an empty
/// list produces, as each `insert` replaces the map `m` by `m.insert(k, v)`.
pub open spec fn after_inserts<V>(ins: Seq<(u64, V)>) -> Map<u64, V>
    decreases ins.len(),
{
    if ins.len() == 0 {
        Map::empty()
    } else {
        after_inserts(ins.drop_last()).insert(ins.last().0, ins.last().1)
    }
}

/// After inserting pairs with distinct keys, a lookup of each inserted key
/// finds the value inserted with it, and a key never inserted is absent.
pub proof fn law_lookup_after_inserts<V>(ins: Seq<(u64, V)>)
    requires
        forall|i: int, j: int| 0 <= i < j < ins.len() ==> ins[i].0 != ins[j].0,
    ensures
        forall|i: int|
            0 <= i < ins.len() ==> after_inserts(ins).contains_key(#[trigger] ins[i].0)
                && after_inserts(ins)[ins[i].0] == ins[i].1,
        forall|k: u64|
            (forall|i: int| 0 <= i < ins.len() ==> ins[i].0 != k) ==> !after_inserts(
                ins,
            ).contains_key(k),
    decreases ins.len(),
{
    if ins.len() > 0 {
        let init = ins.drop_last();
        law_lookup_after_inserts(init);
        assert forall|i: int| 0 <= i < ins.len() implies after_inserts(ins).contains_key(
            #[trigger] ins[i].0,
        ) && after_inserts(ins)[ins[i].0] == ins[i].1 by {
            if i < ins.len() - 1 {
                assert(init[i] == ins[i]);
            }
        }
        assert forall|k: u64| (forall|i: int| 0 <= i < ins.len() ==> ins[i].0 != k) implies !after_inserts(
            ins,
        ).contains_key(k) by {
            assert forall|i: int| 0 <= i < init.len() implies init[i].0 != k by {
                assert(init[i] == ins[i]);
            }
            assert(!after_inserts(init).contains_key(k));
            assert(ins[ins.len() - 1].0 != k);
        }
    }
}

/// Once a key is deleted a lookup finds it absent, and deleting an absent
/// key changes nothing.
pub proof fn law_lookup_after_delete<V>(m: Map<u64, V>, k: u64)
    ensures
        !m.remove(k).contains_key(k),
        !m.contains_key(k) ==> m.remove(k) == m,
{
    assert(!m.contains_key(k) ==> m.remove(k) =~= m);
}

/// Whatever insertions and deletions came before, a well-formed list keeps
/// its entries in strictly increasing key order, with exactly the keys of its
/// map; a walk over the list visits these entries in this order.
pub proof fn law_entries_ascending<V>(s: SkipList<V>)
    requires
        s.wf(),
    ensures
        sorted_keys(s.entries()),
        map_of(s.entries()) == s@,
        forall|i: int, j: int| 0 <= i < j < s.entries().len() ==> s.entries()[i].0 < s.entries()[j].0,
{
    s.lemma_sorted();
}

} // verus!
