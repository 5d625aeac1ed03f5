//! Keys in ascending order: the one order in which a map of solutions is
//! written and read.

use crate::assoc::{distinct_keys, has_key, lemma_to_map, to_map};
use vstd::prelude::*;
use vstd::std_specs::btree::{axiom_increasing_seq_meaning, increasing_seq};
use vstd::std_specs::cmp::OrdSpec;

verus! {

/// Each key is smaller than every key behind it.
pub open spec fn ascending(keys: Seq<u32>) -> bool {
    forall|i: int, j: int| 0 <= i < j < keys.len() ==> keys[i] < keys[j]
}

/// The members of `keys` that are smaller than `bound`, smallest first.
pub open spec fn keys_below(keys: Set<u32>, bound: nat) -> Seq<u32>
    decreases bound,
{
    if bound == 0 {
        Seq::empty()
    } else if bound <= 0x1_0000_0000 && keys.contains((bound - 1) as u32) {
        keys_below(keys, (bound - 1) as nat).push((bound - 1) as u32)
    } else {
        keys_below(keys, (bound - 1) as nat)
    }
}

/// The members of `keys`, smallest first.
pub open spec fn sorted_keys(keys: Set<u32>) -> Seq<u32> {
    keys_below(keys, 0x1_0000_0000)
}

/// The entries of `map`, by ascending key.
pub open spec fn sorted_entries<V>(map: Map<u32, V>) -> Seq<(u32, V)> {
    sorted_keys(map.dom()).map_values(|key: u32| (key, map[key]))
}

/// The keys of the entries, in their order.
pub open spec fn entry_keys<V>(entries: Seq<(u32, V)>) -> Seq<u32> {
    entries.map_values(|entry: (u32, V)| entry.0)
}

/// What the standard library calls an increasing sequence is ascending.
pub proof fn lemma_increasing_is_ascending(keys: Seq<u32>)
    requires
        increasing_seq(keys),
    ensures
        ascending(keys),
{
    axiom_increasing_seq_meaning::<u32>(keys);
    assert forall|i: int, j: int| 0 <= i < j < keys.len() implies keys[i] < keys[j] by {
        assert(keys[i].cmp_spec(&keys[j]) is Less);
    }
}

/// `keys_below` lists exactly the members below the bound, in ascending order.
pub proof fn lemma_keys_below(keys: Set<u32>, bound: nat)
    ensures
        ascending(keys_below(keys, bound)),
        forall|k: u32| keys_below(keys, bound).contains(k) <==> keys.contains(k) && k < bound,
    decreases bound,
{
    if bound > 0 {
        let front = keys_below(keys, (bound - 1) as nat);
        lemma_keys_below(keys, (bound - 1) as nat);
        let all = keys_below(keys, bound);
        if bound <= 0x1_0000_0000 && keys.contains((bound - 1) as u32) {
            let top = (bound - 1) as u32;
            assert(all == front.push(top));
            assert forall|i: int, j: int| 0 <= i < j < all.len() implies all[i] < all[j] by {
                assert(all[i] == front[i]);
                assert(front.contains(front[i]));
                if j < front.len() {
                    assert(all[j] == front[j]);
                    assert(front[i] < front[j]);
                } else {
                    assert(all[j] == top);
                    assert(keys.contains(front[i]) && front[i] < bound - 1);
                }
            }
            assert forall|k: u32| all.contains(k) <==> keys.contains(k) && k < bound by {
                if all.contains(k) {
                    let i = choose|i: int| 0 <= i < all.len() && all[i] == k;
                    if i < front.len() {
                        assert(front.contains(front[i]));
                    }
                }
                if keys.contains(k) && k < bound {
                    if k == top {
                        assert(all[front.len() as int] == k);
                    } else {
                        assert(front.contains(k));
                        let i = choose|i: int| 0 <= i < front.len() && front[i] == k;
                        assert(all[i] == k);
                    }
                }
            }
        } else {
            assert(all == front);
            assert forall|k: u32| all.contains(k) <==> keys.contains(k) && k < bound by {
                if keys.contains(k) && k < bound {
                    assert(k < bound - 1);
                }
            }
        }
    } else {
        assert forall|k: u32| !keys_below(keys, bound).contains(k) by {
            if keys_below(keys, bound).contains(k) {
                let none = keys_below(keys, bound);
                let i = choose|i: int| 0 <= i < none.len() && none[i] == k;
            }
        }
    }
}

/// Sets that agree below the bound list the same keys below it.
proof fn lemma_keys_below_agree(a: Set<u32>, b: Set<u32>, bound: nat)
    requires
        forall|k: u32| k < bound ==> a.contains(k) == b.contains(k),
    ensures
        keys_below(a, bound) == keys_below(b, bound),
    decreases bound,
{
    if bound > 0 {
        lemma_keys_below_agree(a, b, (bound - 1) as nat);
    }
}

/// Where no member lies between two bounds, both list the same keys.
proof fn lemma_keys_below_gap(keys: Set<u32>, low: nat, high: nat)
    requires
        low <= high,
        forall|k: u32| low <= k < high ==> !keys.contains(k),
    ensures
        keys_below(keys, high) == keys_below(keys, low),
    decreases high,
{
    if low < high {
        lemma_keys_below_gap(keys, low, (high - 1) as nat);
    }
}

/// The members of a set, smallest first, are its members and ascend.
pub proof fn lemma_sorted_keys(keys: Set<u32>)
    ensures
        ascending(sorted_keys(keys)),
        forall|k: u32| sorted_keys(keys).contains(k) <==> keys.contains(k),
{
    lemma_keys_below(keys, 0x1_0000_0000);
}

/// A set of keys is finite, and listing it in order neither drops nor repeats a key.
pub proof fn lemma_sorted_keys_len(keys: Set<u32>)
    ensures
        keys.finite(),
        sorted_keys(keys).len() == keys.len(),
{
    let order = sorted_keys(keys);
    lemma_sorted_keys(keys);
    assert(order.no_duplicates()) by {
        assert forall|i: int, j: int| 0 <= i < order.len() && 0 <= j < order.len() && i != j implies order[i]
            != order[j] by {
            if i < j {
                assert(order[i] < order[j]);
            } else {
                assert(order[j] < order[i]);
            }
        }
    }
    order.unique_seq_to_set();
    assert(order.to_set() =~= keys);
    vstd::seq_lib::seq_to_set_is_finite(order);
}

/// An ascending sequence is the sorted sequence of its members: a set of keys
/// has one ascending order.
pub proof fn lemma_ascending_is_sorted(order: Seq<u32>, keys: Set<u32>)
    requires
        ascending(order),
        forall|k: u32| keys.contains(k) <==> order.contains(k),
    ensures
        order == sorted_keys(keys),
    decreases order.len(),
{
    if order.len() == 0 {
        assert forall|k: u32| !keys.contains(k) by {
            if keys.contains(k) {
                let i = choose|i: int| 0 <= i < order.len() && order[i] == k;
            }
        }
        lemma_keys_below_gap(keys, 0, 0x1_0000_0000);
    } else {
        let last = order.last();
        let front = order.drop_last();
        let front_keys = keys.remove(last);
        assert(order[order.len() - 1] == last);
        assert(keys.contains(last));
        assert forall|k: u32| front_keys.contains(k) <==> front.contains(k) by {
            if front_keys.contains(k) {
                let i = choose|i: int| 0 <= i < order.len() && order[i] == k;
                assert(front[i] == k);
            }
            if front.contains(k) {
                let i = choose|i: int| 0 <= i < front.len() && front[i] == k;
                assert(order[i] == k);
                assert(order[i] < order[order.len() - 1]);
            }
        }
        assert forall|k: u32| front_keys.contains(k) implies k < last by {
            let i = choose|i: int| 0 <= i < front.len() && front[i] == k;
            assert(order[i] < order[order.len() - 1]);
        }
        lemma_ascending_is_sorted(front, front_keys);
        lemma_keys_below_gap(front_keys, last as nat, 0x1_0000_0000);
        lemma_keys_below_agree(keys, front_keys, last as nat);
        assert forall|k: u32| last < k implies !keys.contains(k) by {
            if keys.contains(k) {
                assert(front_keys.contains(k));
            }
        }
        lemma_keys_below_gap(keys, (last + 1) as nat, 0x1_0000_0000);
        assert(keys_below(keys, (last + 1) as nat) == keys_below(keys, last as nat).push(last));
        assert(front.push(last) =~= order);
    }
}

/// Entries whose keys ascend have distinct keys.
pub proof fn lemma_ascending_entries_distinct<V>(entries: Seq<(u32, V)>)
    requires
        ascending(entry_keys(entries)),
    ensures
        distinct_keys(entries),
{
    let keys = entry_keys(entries);
    assert forall|i: int, j: int| 0 <= i < j < entries.len() implies (#[trigger] entries[i]).0 != (
    #[trigger] entries[j]).0 by {
        assert(keys[i] < keys[j]);
    }
}

/// The entries of a map by ascending key make up the map again.
pub proof fn lemma_sorted_entries<V>(map: Map<u32, V>)
    ensures
        ascending(entry_keys(sorted_entries(map))),
        to_map(sorted_entries(map)) == map,
{
    let keys = sorted_keys(map.dom());
    let entries = sorted_entries(map);
    lemma_sorted_keys(map.dom());
    assert(entry_keys(entries) =~= keys);
    lemma_ascending_entries_distinct(entries);
    lemma_to_map(entries);
    assert forall|k: u32| to_map(entries).contains_key(k) <==> map.contains_key(k) by {
        if has_key(entries, k) {
            let i = choose|i: int| 0 <= i < entries.len() && (#[trigger] entries[i]).0 == k;
            assert(keys[i] == k);
            assert(keys.contains(k));
        }
        if map.contains_key(k) {
            assert(keys.contains(k));
            let i = choose|i: int| 0 <= i < keys.len() && keys[i] == k;
            assert(entries[i].0 == k);
        }
    }
    assert forall|k: u32| map.contains_key(k) implies to_map(entries)[k] == map[k] by {
        assert(keys.contains(k));
        let i = choose|i: int| 0 <= i < keys.len() && keys[i] == k;
        assert(entries[i] == (k, map[k]));
        assert(to_map(entries)[entries[i].0] == entries[i].1);
    }
    assert(to_map(entries) =~= map);
}

/// Entries whose keys ascend are the entries of their map by ascending key: a
/// map has one such sequence of entries.
pub proof fn lemma_entries_are_sorted<V>(entries: Seq<(u32, V)>)
    requires
        ascending(entry_keys(entries)),
    ensures
        sorted_entries(to_map(entries)) == entries,
{
    let keys = entry_keys(entries);
    let map = to_map(entries);
    lemma_ascending_entries_distinct(entries);
    lemma_to_map(entries);
    assert forall|k: u32| map.dom().contains(k) <==> keys.contains(k) by {
        if has_key(entries, k) {
            let i = choose|i: int| 0 <= i < entries.len() && (#[trigger] entries[i]).0 == k;
            assert(keys[i] == k);
        }
        if keys.contains(k) {
            let i = choose|i: int| 0 <= i < keys.len() && keys[i] == k;
            assert(entries[i].0 == k);
        }
    }
    lemma_ascending_is_sorted(keys, map.dom());
    let sorted = sorted_entries(map);
    assert(sorted.len() == entries.len());
    assert forall|i: int| 0 <= i < entries.len() implies sorted[i] == entries[i] by {
        assert(keys[i] == entries[i].0);
        assert(map[entries[i].0] == entries[i].1);
    }
    assert(sorted =~= entries);
}

} // verus!
