//! The rotation of a round's submissions: every slot passes its content on
//! to the next slot, and the last slot passes to the first.

use std::collections::HashMap;
use vstd::prelude::*;

verus! {

broadcast use vstd::std_specs::hash::group_hash_axioms;

/// The slots `0 .. n`.
pub open spec fn slots_below(n: nat) -> Set<u8> {
    Set::new(|k: u8| (k as nat) < n)
}

/// There are exactly `n` slots below `n`, as long as `n` slots exist at all.
pub proof fn lemma_slots_below_len(n: nat)
    requires
        n <= 256,
    ensures
        slots_below(n).finite(),
        slots_below(n).len() == n,
    decreases n,
{
    if n == 0 {
        assert(slots_below(0) =~= Set::<u8>::empty());
    } else {
        let m = (n - 1) as nat;
        lemma_slots_below_len(m);
        assert(slots_below(n) =~= slots_below(m).insert(m as u8));
    }
}

/// A table is fully populated when its keys are exactly the slots `0 .. len`.
pub open spec fn fully_populated<V>(table: Map<u8, V>) -> bool {
    &&& table.dom().finite()
    &&& table.dom() == slots_below(table.len())
}

/// A fully populated table has at most 256 entries.
pub proof fn lemma_fully_populated_len<V>(table: Map<u8, V>)
    requires
        fully_populated(table),
    ensures
        table.len() <= 256,
{
    if table.len() > 256 {
        lemma_slots_below_len(256);
        assert(table.dom() =~= slots_below(256));
    }
}

/// A table whose keys are slots below `n` has at most `n` entries.
pub proof fn lemma_table_len_bound<V>(table: Map<u8, V>, n: nat)
    requires
        n <= 256,
        table.dom().subset_of(slots_below(n)),
    ensures
        table.dom().finite(),
        table.len() <= n,
{
    lemma_slots_below_len(n);
    vstd::set_lib::lemma_len_subset(table.dom(), slots_below(n));
}

/// A table of `n` entries whose keys are slots below `n` is fully populated.
pub proof fn lemma_full_table<V>(table: Map<u8, V>, n: nat)
    requires
        n <= 256,
        table.dom().subset_of(slots_below(n)),
        table.len() == n,
    ensures
        fully_populated(table),
{
    lemma_slots_below_len(n);
    lemma_table_len_bound(table, n);
    vstd::set_lib::lemma_subset_equality(table.dom(), slots_below(n));
}

/// The slot whose content moves to slot `k` when a table of `n` slots is rotated.
pub open spec fn source_slot(k: u8, n: nat) -> u8 {
    ((k - 1) % (n as int)) as u8
}

/// The table in which every slot holds what its predecessor held in `table`.
pub open spec fn rotated<V>(table: Map<u8, V>) -> Map<u8, V> {
    Map::new(|k: u8| table.contains_key(k), |k: u8| table[source_slot(k, table.len())])
}

/// In a rotated table of `n >= 1` slots, slot `k` holds what slot
/// `(k - 1) mod n` held before.
pub proof fn lemma_rotated_entry<V>(table: Map<u8, V>, k: u8)
    requires
        fully_populated(table),
        table.contains_key(k),
    ensures
        rotated(table).contains_key(k),
        table.contains_key(source_slot(k, table.len())),
        rotated(table)[k] == table[source_slot(k, table.len())],
        source_slot(k, table.len()) == if k == 0 {
            table.len() - 1
        } else {
            k - 1
        },
{
    let n = table.len();
    lemma_fully_populated_len(table);
    if k == 0 {
        vstd::arithmetic::div_mod::lemma_small_mod((n - 1) as nat, n);
        vstd::arithmetic::div_mod::lemma_mod_add_multiples_vanish(-1int, n as int);
    } else {
        vstd::arithmetic::div_mod::lemma_small_mod((k - 1) as nat, n);
    }
}

/// Rotating a table and then mapping its contents is mapping its contents and
/// then rotating.
pub proof fn lemma_rotated_map_values<V, W>(table: Map<u8, V>, f: spec_fn(V) -> W)
    requires
        fully_populated(table),
    ensures
        fully_populated(table.map_values(f)),
        rotated(table.map_values(f)) == rotated(table).map_values(f),
{
    let mapped = table.map_values(f);
    assert(mapped.dom() =~= table.dom());
    assert forall|k: u8| rotated(table).contains_key(k) implies #[trigger] rotated(mapped)[k]
        == rotated(table).map_values(f)[k] by {
        lemma_rotated_entry(table, k);
    }
    assert(rotated(mapped) =~= rotated(table).map_values(f));
}

/// Rotates a completed round's table: the content of slot `k` moves to slot
/// `k + 1`, and the content of the last slot moves to slot 0. The table must
/// hold exactly one entry for each of its slots.
pub fn rotate_map(map: &HashMap<u8, String>) -> (out: HashMap<u8, String>)
    requires
        fully_populated(map@),
    ensures
        out@ == rotated(map@),
{
    let n: usize = map.len();
    proof {
        lemma_fully_populated_len(map@);
    }
    let mut out: HashMap<u8, String> = HashMap::new();
    let mut k: usize = 0;
    while k < n
        invariant
            n == map@.len(),
            n <= 256,
            fully_populated(map@),
            k <= n,
            forall|j: u8| out@.contains_key(j) <==> ((1 <= j <= k && j < n) || (j == 0 && k == n && n > 0)),
            forall|j: u8| out@.contains_key(j) ==> out@[j] == map@[source_slot(j, n as nat)],
        decreases n - k,
    {
        let key: u8 = k as u8;
        let next: u8 = if k == n - 1 { 0 } else { key + 1 };
        assert(map@.contains_key(key));
        assert(source_slot(next, n as nat) == key) by {
            if k == n - 1 {
                assert((-1int) % (n as int) == n - 1) by {
                    vstd::arithmetic::div_mod::lemma_small_mod((n - 1) as nat, n as nat);
                    vstd::arithmetic::div_mod::lemma_mod_add_multiples_vanish(-1int, n as int);
                }
            } else {
                vstd::arithmetic::div_mod::lemma_small_mod(k as nat, n as nat);
            }
        }
        let content = map.get(&key).unwrap().clone();
        out.insert(next, content);
        k = k + 1;
    }
    assert(out@ =~= rotated(map@));
    out
}

} // verus!
