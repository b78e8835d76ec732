//! Sums over tables of amounts.

use std::collections::HashMap;
use vstd::prelude::*;
use vstd::std_specs::iter::IteratorSpec;

verus! {

/// The sum of all amounts in a table.
pub open spec fn table_total(table: Map<u128, u64>) -> nat
    decreases table.dom().len(),
{
    if table.dom().finite() && table.dom().len() > 0 {
        let key = table.dom().choose();
        table[key] as nat + table_total(table.remove(key))
    } else {
        0
    }
}

/// The sum splits off any entry.
pub proof fn lemma_total_remove(table: Map<u128, u64>, key: u128)
    requires
        table.dom().finite(),
        table.contains_key(key),
    ensures
        table_total(table) == table[key] as nat + table_total(table.remove(key)),
    decreases table.dom().len(),
{
    let first = table.dom().choose();
    assert(table.dom().contains(key));
    assert(table.dom().len() > 0);
    if first != key {
        assert(table.dom().contains(first));
        let left = table.remove(first);
        let right = table.remove(key);
        lemma_total_remove(left, key);
        lemma_total_remove(right, first);
        assert(left.remove(key) =~= right.remove(first));
    }
}

/// The sum after an entry is set, new or not.
pub proof fn lemma_total_insert(table: Map<u128, u64>, key: u128, amount: u64)
    requires
        table.dom().finite(),
    ensures
        table_total(table.insert(key, amount)) == amount as nat + table_total(table.remove(key)),
        table_total(table.insert(key, amount)) <= amount + table_total(table),
        !table.contains_key(key) ==> table_total(table.insert(key, amount)) == amount
            + table_total(table),
{
    let new = table.insert(key, amount);
    lemma_total_remove(new, key);
    assert(new.remove(key) =~= table.remove(key));
    if table.contains_key(key) {
        lemma_total_remove(table, key);
    } else {
        assert(table.remove(key) =~= table);
    }
}

/// The sum over a walk through a table.
spec fn walk_total(walk: Seq<(&u128, &u64)>) -> nat
    decreases walk.len(),
{
    if walk.len() == 0 {
        0
    } else {
        walk_total(walk.drop_last()) + *walk.last().1 as nat
    }
}

proof fn lemma_walk_total(walk: Seq<(&u128, &u64)>, table: Map<u128, u64>)
    requires
        table.dom().finite(),
        walk.len() == table.dom().len(),
        walk.no_duplicates(),
        forall|i: int|
            #![trigger walk[i]]
            0 <= i < walk.len() ==> table.contains_key(*walk[i].0) && table[*walk[i].0]
                == *walk[i].1,
    ensures
        walk_total(walk) == table_total(table),
    decreases walk.len(),
{
    if walk.len() > 0 {
        let (key, amount) = walk.last();
        let rest = walk.drop_last();
        let left = table.remove(*key);
        lemma_total_remove(table, *key);
        assert forall|i: int| 0 <= i < rest.len() implies left.contains_key(*(#[trigger] rest[i]).0)
            && left[*rest[i].0] == *rest[i].1 by {
            assert(rest[i] == walk[i]);
            if *walk[i].0 == *key {
                assert(walk[i] == walk[walk.len() - 1]);
            }
        }
        lemma_walk_total(rest, left);
    }
}

proof fn lemma_walk_part(walk: Seq<(&u128, &u64)>, i: int)
    requires
        0 <= i <= walk.len(),
    ensures
        walk_total(walk.take(i)) <= walk_total(walk),
    decreases walk.len() - i,
{
    if i < walk.len() {
        lemma_walk_part(walk, i + 1);
        assert(walk.take(i + 1).drop_last() =~= walk.take(i));
    } else {
        assert(walk.take(i) =~= walk);
    }
}

/// Adds up a table.
pub fn total(table: &HashMap<u128, u64>) -> (r: u64)
    requires
        table_total(table@) <= u64::MAX,
    ensures
        r == table_total(table@),
{
    let mut sum: u64 = 0;
    let entries = table.iter();
    proof {
        lemma_walk_total(entries.remaining(), table@);
        assert(entries.remaining().take(0) =~= Seq::empty());
    }
    for entry in walk: entries
        invariant
            table_total(table@) <= u64::MAX,
            walk_total(walk.seq()) == table_total(table@),
            sum == walk_total(walk.seq().take(walk.index() as int)),
            walk.index() == walk.seq().len() ==> sum == table_total(table@),
    {
        proof {
            lemma_walk_part(walk.seq(), walk.index() + 1);
            assert(walk.seq().take(walk.index() + 1).drop_last() =~= walk.seq().take(
                walk.index() as int,
            ));
            assert(walk.seq().take(walk.seq().len() as int) =~= walk.seq());
        }
        sum = sum + *entry.1;
    }
    sum
}

/// An empty table adds up to nothing, and a table with one entry to that entry.
pub proof fn lemma_total_of_few(key: u128, amount: u64)
    ensures
        table_total(Map::empty()) == 0,
        table_total(Map::<u128, u64>::empty().insert(key, amount)) == amount,
{
    lemma_total_insert(Map::<u128, u64>::empty(), key, amount);
}

} // verus!
