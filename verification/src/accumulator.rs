use crate::record::bytes_equal;
use vstd::prelude::*;
use vstd::seq_lib::{to_multiset_contains, to_multiset_len, to_multiset_remove};

verus! {

/// Keys with a number each: the input's (key, value) pairs in input order, or
/// the groups with their sums.
pub type Sums = Seq<(Seq<u8>, nat)>;

/// The position of the first pair with this key, or the length where no pair
/// has it.
pub open spec fn first_index(sums: Sums, key: Seq<u8>) -> int
    decreases sums.len(),
{
    if sums.len() == 0 {
        0
    } else if sums[0].0 == key {
        0
    } else {
        1 + first_index(sums.skip(1), key)
    }
}

/// Some pair has this key.
pub open spec fn has_key(sums: Sums, key: Seq<u8>) -> bool {
    exists|i: int| 0 <= i < sums.len() && (#[trigger] sums[i]).0 == key
}

/// No key occurs twice.
pub open spec fn distinct_keys(sums: Sums) -> bool {
    forall|i: int, j: int|
        0 <= i < j < sums.len() ==> (#[trigger] sums[i]).0 != (#[trigger] sums[j]).0
}

/// The sum recorded for a key; 0 for a key that is not there.
pub open spec fn sum_for(groups: Sums, key: Seq<u8>) -> nat {
    let i = first_index(groups, key);
    if i < groups.len() {
        groups[i].1
    } else {
        0
    }
}

/// The groups after one more record: the value is added to the sum of its key,
/// or the key enters at the end with the value as its sum.
pub open spec fn accumulated(groups: Sums, key: Seq<u8>, value: nat) -> Sums {
    let i = first_index(groups, key);
    if i < groups.len() {
        groups.update(i, (key, groups[i].1 + value))
    } else {
        groups.push((key, value))
    }
}

/// The groups that a run of (key, value) pairs leaves, in the order in which
/// the keys were first seen.
pub open spec fn aggregate(pairs: Sums) -> Sums
    decreases pairs.len(),
{
    if pairs.len() == 0 {
        Seq::empty()
    } else {
        accumulated(aggregate(pairs.drop_last()), pairs.last().0, pairs.last().1)
    }
}

/// The arithmetic sum of the values of the pairs that have this key.
pub open spec fn total(pairs: Sums, key: Seq<u8>) -> nat
    decreases pairs.len(),
{
    if pairs.len() == 0 {
        0
    } else if pairs.last().0 == key {
        total(pairs.drop_last(), key) + pairs.last().1
    } else {
        total(pairs.drop_last(), key)
    }
}

/// `first_index` is in range, no earlier pair has the key, and the pair at it
/// has.
pub proof fn lemma_first_index(sums: Sums, key: Seq<u8>)
    ensures
        0 <= first_index(sums, key) <= sums.len(),
        forall|j: int| 0 <= j < first_index(sums, key) ==> (#[trigger] sums[j]).0 != key,
        first_index(sums, key) < sums.len() ==> sums[first_index(sums, key)].0 == key,
    decreases sums.len(),
{
    if sums.len() > 0 && sums[0].0 != key {
        let rest = sums.skip(1);
        lemma_first_index(rest, key);
        assert forall|j: int| 0 <= j < first_index(sums, key) implies (#[trigger] sums[j]).0
            != key by {
            if j > 0 {
                assert(rest[j - 1] == sums[j]);
            }
        }
    }
}

/// A position that no pair with the key precedes, and that holds the key or
/// is the length, is the `first_index`.
pub proof fn lemma_first_index_is(sums: Sums, key: Seq<u8>, i: int)
    requires
        0 <= i <= sums.len(),
        forall|j: int| 0 <= j < i ==> (#[trigger] sums[j]).0 != key,
        i < sums.len() ==> sums[i].0 == key,
    ensures
        first_index(sums, key) == i,
{
    lemma_first_index(sums, key);
    let f = first_index(sums, key);
    if f < i {
        assert(sums[f].0 != key);
    }
}

/// Accumulating adds the value to the sum of its key and leaves every other
/// sum as it was.
pub proof fn lemma_accumulated_sum(groups: Sums, key: Seq<u8>, value: nat, other: Seq<u8>)
    ensures
        sum_for(accumulated(groups, key, value), other) == sum_for(groups, other) + (if other
            == key {
            value
        } else {
            0
        }),
{
    lemma_first_index(groups, key);
    lemma_first_index(groups, other);
    let after = accumulated(groups, key, value);
    let i = first_index(groups, key);
    let f = first_index(groups, other);
    assert forall|j: int| 0 <= j < f implies (#[trigger] after[j]).0 != other by {
        assert(after[j].0 == groups[j].0);
    }
    if i < groups.len() || other == key || f < groups.len() {
        lemma_first_index_is(after, other, f);
    } else {
        lemma_first_index_is(after, other, f + 1);
    }
}

/// A list with one more pair at its end has the keys of the list and the key
/// of the pair; its keys are distinct where those of the list are and the
/// pair's key is new, and only there.
pub proof fn lemma_push_keys(sums: Sums, pair: (Seq<u8>, nat))
    ensures
        forall|key: Seq<u8>|
            #![trigger has_key(sums.push(pair), key)]
            has_key(sums.push(pair), key) <==> (has_key(sums, key) || key == pair.0),
        distinct_keys(sums.push(pair)) <==> (distinct_keys(sums) && !has_key(sums, pair.0)),
{
    let more = sums.push(pair);
    assert forall|key: Seq<u8>| has_key(more, key) <==> (has_key(sums, key) || key
        == pair.0) by {
        if has_key(more, key) {
            let j = choose|j: int| 0 <= j < more.len() && (#[trigger] more[j]).0 == key;
            if j < sums.len() {
                assert(sums[j].0 == key);
            }
        }
        if has_key(sums, key) {
            let j = choose|j: int| 0 <= j < sums.len() && (#[trigger] sums[j]).0 == key;
            assert(more[j].0 == key);
        }
        if key == pair.0 {
            assert(more[sums.len() as int].0 == key);
        }
    }
    if distinct_keys(more) {
        assert forall|i: int, j: int| 0 <= i < j < sums.len() implies (#[trigger] sums[i]).0 != (
        #[trigger] sums[j]).0 by {
            assert(more[i].0 != more[j].0);
        }
        if has_key(sums, pair.0) {
            let j = choose|j: int| 0 <= j < sums.len() && (#[trigger] sums[j]).0 == pair.0;
            assert(more[j].0 != more[sums.len() as int].0);
        }
    }
    if distinct_keys(sums) && !has_key(sums, pair.0) {
        assert forall|i: int, j: int| 0 <= i < j < more.len() implies (#[trigger] more[i]).0 != (
        #[trigger] more[j]).0 by {
            assert(more[i] == sums[i]);
            if j < sums.len() {
                assert(more[j] == sums[j]);
            }
        }
    }
}

/// Accumulating keeps the keys apart, and adds the record's key to them and no
/// other.
pub proof fn lemma_accumulated_keys(groups: Sums, key: Seq<u8>, value: nat)
    ensures
        distinct_keys(groups) ==> distinct_keys(accumulated(groups, key, value)),
        forall|other: Seq<u8>|
            #![trigger has_key(accumulated(groups, key, value), other)]
            has_key(accumulated(groups, key, value), other) <==> (has_key(groups, other) || other
                == key),
{
    lemma_first_index(groups, key);
    let after = accumulated(groups, key, value);
    let i = first_index(groups, key);
    assert forall|j: int| 0 <= j < groups.len() implies (#[trigger] after[j]).0
        == groups[j].0 by {}
    if distinct_keys(groups) {
        assert forall|a: int, b: int| 0 <= a < b < after.len() implies (#[trigger] after[a]).0 != (
        #[trigger] after[b]).0 by {
            assert(after[a].0 == groups[a].0);
            if b < groups.len() {
                assert(after[b].0 == groups[b].0);
            }
        }
    }
    assert forall|other: Seq<u8>|
        has_key(after, other) <==> (has_key(groups, other) || other == key) by {
        if has_key(after, other) {
            let j = choose|j: int| 0 <= j < after.len() && (#[trigger] after[j]).0 == other;
            if j < groups.len() {
                assert(groups[j].0 == other);
            }
        }
        if has_key(groups, other) {
            let j = choose|j: int| 0 <= j < groups.len() && (#[trigger] groups[j]).0 == other;
            assert(after[j].0 == other);
        }
        if other == key {
            if i < groups.len() {
                assert(after[i].0 == key);
            } else {
                assert(after[groups.len() as int].0 == key);
            }
        }
    }
}

/// The sum that aggregation records for a key is the arithmetic sum of the
/// values of the pairs with that key.
pub proof fn lemma_aggregate_total(pairs: Sums, key: Seq<u8>)
    ensures
        sum_for(aggregate(pairs), key) == total(pairs, key),
    decreases pairs.len(),
{
    if pairs.len() > 0 {
        lemma_aggregate_total(pairs.drop_last(), key);
        lemma_accumulated_sum(aggregate(pairs.drop_last()), pairs.last().0, pairs.last().1, key);
    }
}

/// Aggregation lists each key of the input once, and no other key.
pub proof fn lemma_aggregate_keys(pairs: Sums)
    ensures
        distinct_keys(aggregate(pairs)),
        forall|key: Seq<u8>|
            #![trigger has_key(aggregate(pairs), key)]
            has_key(aggregate(pairs), key) <==> has_key(pairs, key),
    decreases pairs.len(),
{
    if pairs.len() > 0 {
        let head = pairs.drop_last();
        lemma_aggregate_keys(head);
        lemma_accumulated_keys(aggregate(head), pairs.last().0, pairs.last().1);
        assert forall|key: Seq<u8>| has_key(aggregate(pairs), key) <==> has_key(pairs, key) by {
            if has_key(pairs, key) {
                let j = choose|j: int| 0 <= j < pairs.len() && (#[trigger] pairs[j]).0 == key;
                if j < head.len() {
                    assert(head[j].0 == key);
                }
            }
            if has_key(head, key) {
                let j = choose|j: int| 0 <= j < head.len() && (#[trigger] head[j]).0 == key;
                assert(pairs[j].0 == key);
            }
            if key == pairs.last().0 {
                assert(pairs[pairs.len() - 1].0 == key);
            }
        }
    }
}

/// Taking one pair out lowers the total of its key by its value and leaves
/// the other totals as they were.
pub proof fn lemma_total_remove(pairs: Sums, i: int, key: Seq<u8>)
    requires
        0 <= i < pairs.len(),
    ensures
        total(pairs, key) == total(pairs.remove(i), key) + (if pairs[i].0 == key {
            pairs[i].1
        } else {
            0
        }),
    decreases pairs.len(),
{
    if i == pairs.len() - 1 {
        assert(pairs.remove(i) =~= pairs.drop_last());
    } else {
        let head = pairs.drop_last();
        lemma_total_remove(head, i, key);
        assert(pairs.remove(i).drop_last() =~= head.remove(i));
        assert(pairs.remove(i).last() == pairs.last());
        assert(head[i] == pairs[i]);
    }
}

/// The total of a key is the same for any two orders of the same pairs.
pub proof fn lemma_total_permutation(a: Sums, b: Sums, key: Seq<u8>)
    requires
        a.to_multiset() == b.to_multiset(),
    ensures
        total(a, key) == total(b, key),
    decreases a.len(),
{
    to_multiset_len(a);
    to_multiset_len(b);
    if a.len() > 0 {
        let last = a.len() - 1;
        let x = a[last];
        assert(a.contains(x));
        to_multiset_contains(a, x);
        to_multiset_contains(b, x);
        let j = choose|j: int| 0 <= j < b.len() && b[j] == x;
        to_multiset_remove(a, last);
        to_multiset_remove(b, j);
        assert(a.remove(last) =~= a.drop_last());
        lemma_total_permutation(a.drop_last(), b.remove(j), key);
        lemma_total_remove(b, j, key);
    }
}

/// The sum that aggregation records for a key does not depend on the order in
/// which the pairs are processed.
pub proof fn lemma_aggregate_any_order(a: Sums, b: Sums, key: Seq<u8>)
    requires
        a.to_multiset() == b.to_multiset(),
    ensures
        sum_for(aggregate(a), key) == sum_for(aggregate(b), key),
{
    lemma_aggregate_total(a, key);
    lemma_aggregate_total(b, key);
    lemma_total_permutation(a, b, key);
}

/// In a list with distinct keys a group occurs once where the list records
/// its sum for its key, and not at all elsewhere.
pub proof fn lemma_group_count(groups: Sums, group: (Seq<u8>, nat))
    requires
        distinct_keys(groups),
    ensures
        groups.to_multiset().count(group) == (if has_key(groups, group.0) && sum_for(
            groups,
            group.0,
        ) == group.1 {
            1nat
        } else {
            0nat
        }),
{
    lemma_first_index(groups, group.0);
    let f = first_index(groups, group.0);
    to_multiset_contains(groups, group);
    assert(groups.no_duplicates()) by {
        assert forall|i: int, j: int|
            0 <= i < groups.len() && 0 <= j < groups.len() && i != j implies groups[i]
            != groups[j] by {
            if i < j {
                assert(groups[i].0 != groups[j].0);
            } else {
                assert(groups[j].0 != groups[i].0);
            }
        }
    }
    groups.lemma_multiset_has_no_duplicates();
    if groups.contains(group) {
        let j = choose|j: int| 0 <= j < groups.len() && groups[j] == group;
        assert(groups[j].0 == group.0);
        lemma_first_index_is(groups, group.0, j);
        assert(groups.to_multiset().contains(group));
    } else if has_key(groups, group.0) && sum_for(groups, group.0) == group.1 {
        let j = choose|j: int| 0 <= j < groups.len() && (#[trigger] groups[j]).0 == group.0;
        assert(f < groups.len());
        assert(groups[f] == group);
    }
}

/// Two lists with distinct keys that record the same keys with the same sums
/// hold the same groups, in whatever order.
pub proof fn lemma_same_groups(a: Sums, b: Sums)
    requires
        distinct_keys(a),
        distinct_keys(b),
        forall|key: Seq<u8>| #![trigger has_key(a, key)] has_key(a, key) <==> has_key(b, key),
        forall|key: Seq<u8>| #![trigger sum_for(a, key)] sum_for(a, key) == sum_for(b, key),
    ensures
        a.to_multiset() == b.to_multiset(),
{
    assert forall|group: (Seq<u8>, nat)|
        a.to_multiset().count(group) == b.to_multiset().count(group) by {
        lemma_group_count(a, group);
        lemma_group_count(b, group);
        assert(has_key(a, group.0) <==> has_key(b, group.0));
        assert(sum_for(a, group.0) == sum_for(b, group.0));
    }
    assert(a.to_multiset() =~= b.to_multiset());
}

/// Two orders of the same pairs have the same keys.
pub proof fn lemma_permutation_keys(a: Sums, b: Sums, key: Seq<u8>)
    requires
        a.to_multiset() == b.to_multiset(),
    ensures
        has_key(a, key) == has_key(b, key),
{
    if has_key(a, key) {
        let j = choose|j: int| 0 <= j < a.len() && (#[trigger] a[j]).0 == key;
        assert(a.contains(a[j]));
        to_multiset_contains(a, a[j]);
        to_multiset_contains(b, a[j]);
        let k = choose|k: int| 0 <= k < b.len() && b[k] == a[j];
        assert(b[k].0 == key);
    }
    if has_key(b, key) {
        let j = choose|j: int| 0 <= j < b.len() && (#[trigger] b[j]).0 == key;
        assert(b.contains(b[j]));
        to_multiset_contains(b, b[j]);
        to_multiset_contains(a, b[j]);
        let k = choose|k: int| 0 <= k < a.len() && a[k] == b[j];
        assert(a[k].0 == key);
    }
}

/// Aggregation leaves the same groups for any two orders of the same pairs.
pub proof fn lemma_aggregate_same_groups(a: Sums, b: Sums)
    requires
        a.to_multiset() == b.to_multiset(),
    ensures
        aggregate(a).to_multiset() == aggregate(b).to_multiset(),
{
    lemma_aggregate_keys(a);
    lemma_aggregate_keys(b);
    let ga = aggregate(a);
    let gb = aggregate(b);
    assert forall|key: Seq<u8>| #![trigger has_key(ga, key)] has_key(ga, key) <==> has_key(
        gb,
        key,
    ) by {
        lemma_permutation_keys(a, b, key);
        assert(has_key(aggregate(a), key) <==> has_key(a, key));
        assert(has_key(aggregate(b), key) <==> has_key(b, key));
    }
    assert forall|key: Seq<u8>| #![trigger sum_for(ga, key)] sum_for(ga, key) == sum_for(
        gb,
        key,
    ) by {
        lemma_aggregate_any_order(a, b, key);
    }
    lemma_same_groups(ga, gb);
}

/// Pairs with distinct keys are their own groups: aggregation leaves them as
/// they are.
pub proof fn lemma_aggregate_distinct(pairs: Sums)
    requires
        distinct_keys(pairs),
    ensures
        aggregate(pairs) == pairs,
    decreases pairs.len(),
{
    if pairs.len() > 0 {
        let head = pairs.drop_last();
        let last = pairs.last();
        assert(head.push(last) =~= pairs);
        lemma_push_keys(head, last);
        lemma_aggregate_distinct(head);
        lemma_first_index(head, last.0);
        let f = first_index(head, last.0);
        if f < head.len() {
            assert(head[f].0 == last.0);
        }
    } else {
        assert(aggregate(pairs) =~= pairs);
    }
}

/// One group: its key and the sum of its values so far.
#[derive(Debug, Clone, PartialEq, Eq)]
pub struct Entry {
    pub key: Vec<u8>,
    pub sum: u64,
}

impl View for Entry {
    type V = (Seq<u8>, nat);

    open spec fn view(&self) -> (Seq<u8>, nat) {
        (self.key@, self.sum as nat)
    }
}

/// What a vector of entries stands for.
pub open spec fn groups_view(entries: &Vec<Entry>) -> Sums {
    Seq::new(entries@.len(), |i: int| entries@[i]@)
}

/// The running sums of the groups seen so far, in the order in which their
/// keys were first seen.
pub struct Accumulator {
    entries: Vec<Entry>,
}

impl View for Accumulator {
    type V = Sums;

    closed spec fn view(&self) -> Sums {
        groups_view(&self.entries)
    }
}

impl Accumulator {
    /// No key is held twice.
    pub open spec fn wf(&self) -> bool {
        distinct_keys(self@)
    }

    /// An accumulator that has seen nothing.
    pub fn new() -> (acc: Accumulator)
        ensures
            acc@ == Sums::empty(),
            acc.wf(),
    {
        let acc = Accumulator { entries: Vec::new() };
        assert(acc@ =~= Sums::empty());
        acc
    }

    /// The number of groups.
    pub fn len(&self) -> (n: usize)
        ensures
            n == self@.len(),
    {
        self.entries.len()
    }

    /// Adds `value` to the sum of `key`, which enters with sum `value` if it is
    /// new. Where the sum would pass `u64::MAX` nothing changes and the answer
    /// is `false`.
    pub fn accumulate(&mut self, key: Vec<u8>, value: u64) -> (done: bool)
        requires
            old(self).wf(),
        ensures
            final(self).wf(),
            done == (sum_for(old(self)@, key@) + value <= u64::MAX),
            done ==> final(self)@ == accumulated(old(self)@, key@, value as nat),
            !done ==> final(self)@ == old(self)@,
    {
        let mut i: usize = 0;
        while i < self.entries.len()
            invariant
                i <= self.entries.len(),
                *self == *old(self),
                self.wf(),
                forall|j: int| 0 <= j < i ==> (#[trigger] self@[j]).0 != key@,
            decreases self.entries.len() - i,
        {
            if bytes_equal(self.entries[i].key.as_slice(), key.as_slice()) {
                let current = self.entries[i].sum;
                proof {
                    assert(self@[i as int].0 == key@);
                    lemma_first_index_is(self@, key@, i as int);
                    lemma_accumulated_keys(self@, key@, value as nat);
                }
                if current > u64::MAX - value {
                    return false;
                }
                self.entries.set(i, Entry { key, sum: current + value });
                proof {
                    assert(self@ =~= accumulated(old(self)@, key@, value as nat));
                }
                return true;
            }
            proof {
                assert(self@[i as int].0 != key@);
            }
            i += 1;
        }
        proof {
            lemma_first_index_is(self@, key@, i as int);
            lemma_accumulated_keys(self@, key@, value as nat);
        }
        self.entries.push(Entry { key, sum: value });
        proof {
            assert(self@ =~= accumulated(old(self)@, key@, value as nat));
        }
        true
    }

    /// The groups with their sums, in the order in which their keys were first
    /// seen.
    pub fn into_entries(self) -> (entries: Vec<Entry>)
        ensures
            groups_view(&entries) == self@,
    {
        self.entries
    }
}

} // verus!
