//! From the records of an input table to the table itself.

use std::collections::HashMap;
use vstd::prelude::*;

verus! {

broadcast use vstd::std_specs::hash::group_hash_axioms;

/// The table that `records` spell out: each value with its weight, a later
/// record for a value replacing an earlier one.
pub open spec fn table_of(records: Seq<(u64, i64)>) -> Map<u64, i64>
    decreases records.len(),
{
    if records.len() == 0 {
        Map::empty()
    } else {
        table_of(records.drop_last()).insert(records.last().0, records.last().1)
    }
}

/// The largest value among `records`, 0 where there is none.
pub open spec fn largest_of(records: Seq<(u64, i64)>) -> u64
    decreases records.len(),
{
    if records.len() == 0 {
        0
    } else {
        let rest = largest_of(records.drop_last());
        if records.last().0 > rest {
            records.last().0
        } else {
            rest
        }
    }
}

/// The table holds `value` exactly if some record names it.
pub proof fn lemma_table_holds_named(records: Seq<(u64, i64)>, value: u64)
    ensures
        table_of(records).contains_key(value) <==> exists|i: int|
            0 <= i < records.len() && (#[trigger] records[i]).0 == value,
    decreases records.len(),
{
    if records.len() > 0 {
        let front = records.drop_last();
        lemma_table_holds_named(front, value);
        if table_of(front).contains_key(value) {
            let i = choose|i: int| 0 <= i < front.len() && (#[trigger] front[i]).0 == value;
            assert(records[i].0 == value);
        }
        if records.last().0 == value {
            assert(records[records.len() - 1].0 == value);
        }
        if exists|i: int| 0 <= i < records.len() && (#[trigger] records[i]).0 == value {
            let i = choose|i: int| 0 <= i < records.len() && (#[trigger] records[i]).0 == value;
            if i < front.len() {
                assert(front[i].0 == value);
            }
        }
    }
}

/// A record that no later record overrides gives its value its weight.
pub proof fn lemma_table_keeps_last(records: Seq<(u64, i64)>, i: int)
    requires
        0 <= i < records.len(),
        forall|j: int| i < j < records.len() ==> (#[trigger] records[j]).0 != records[i].0,
    ensures
        table_of(records).contains_key(records[i].0),
        table_of(records)[records[i].0] == records[i].1,
    decreases records.len(),
{
    let front = records.drop_last();
    if i < front.len() {
        assert(records[records.len() - 1].0 != records[i].0);
        assert forall|j: int| i < j < front.len() implies (#[trigger] front[j]).0 != front[i].0 by {
            assert(front[j] == records[j]);
        }
        lemma_table_keeps_last(front, i);
    }
}

/// No record has a value above the largest, and where there are records one
/// of them has it.
pub proof fn lemma_largest_is_maximum(records: Seq<(u64, i64)>)
    ensures
        forall|i: int| 0 <= i < records.len() ==> (#[trigger] records[i]).0 <= largest_of(records),
        records.len() > 0 ==> exists|i: int|
            0 <= i < records.len() && (#[trigger] records[i]).0 == largest_of(records),
    decreases records.len(),
{
    if records.len() > 0 {
        let front = records.drop_last();
        lemma_largest_is_maximum(front);
        assert forall|i: int| 0 <= i < records.len() implies (#[trigger] records[i]).0
            <= largest_of(records) by {
            if i < front.len() {
                assert(front[i] == records[i]);
            }
        }
        if records.last().0 > largest_of(front) || front.len() == 0 {
            assert(records[records.len() - 1].0 == largest_of(records));
        } else {
            let i = choose|i: int| 0 <= i < front.len() && (#[trigger] front[i]).0 == largest_of(
                front,
            );
            assert(records[i].0 == largest_of(records));
        }
    }
}

/// Gathers the records of an input table, (value, weight) pairs in the order
/// they were read, into the table they spell out, and finds the largest value.
pub fn input_to_hashmap(records: &Vec<(u64, i64)>) -> (gathered: (HashMap<u64, i64>, u64))
    ensures
        gathered.0@ == table_of(records@),
        gathered.1 == largest_of(records@),
{
    let mut result: HashMap<u64, i64> = HashMap::new();
    let mut largest: u64 = 0;
    let mut index: usize = 0;
    while index < records.len()
        invariant
            index <= records.len(),
            result@ == table_of(records@.take(index as int)),
            largest == largest_of(records@.take(index as int)),
        decreases records.len() - index,
    {
        let value: u64 = records[index].0;
        let weight: i64 = records[index].1;
        if value > largest {
            largest = value;
        }
        result.insert(value, weight);
        proof {
            assert(records@.take(index + 1).drop_last() =~= records@.take(index as int));
        }
        index = index + 1;
    }
    assert(records@.take(index as int) =~= records@);
    (result, largest)
}

} // verus!
