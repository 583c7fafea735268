use crate::accumulator::{distinct_keys, groups_view, has_key, lemma_push_keys, Entry, Sums};
use crate::extract::group_key;
use crate::number::{decimal, format_number, is_digit, lemma_decimal_digits};
use crate::record::{
    append_bytes, fields_view, free_of, join, join_fields, lemma_split_join, split, split_line,
};
use vstd::prelude::*;
use vstd::seq_lib::{to_multiset_build, to_multiset_contains, to_multiset_len, to_multiset_remove};

verus! {

/// A list that is ordered by descending sum, with one more group put behind
/// every group whose sum is at least its own.
pub open spec fn placed(sorted: Sums, group: (Seq<u8>, nat)) -> Sums
    decreases sorted.len(),
{
    if sorted.len() == 0 {
        seq![group]
    } else if sorted.last().1 >= group.1 {
        sorted.push(group)
    } else {
        placed(sorted.drop_last(), group).push(sorted.last())
    }
}

/// The groups by descending sum; groups of equal sum keep their order.
pub open spec fn ranked(groups: Sums) -> Sums
    decreases groups.len(),
{
    if groups.len() == 0 {
        Seq::empty()
    } else {
        placed(ranked(groups.drop_last()), groups.last())
    }
}

/// No sum is followed by a larger one.
pub open spec fn descending(sums: Sums) -> bool {
    forall|i: int, j: int| 0 <= i < j < sums.len() ==> sums[i].1 >= sums[j].1
}

/// The output row of a group. With the sum first: the sum, the separator, the
/// key. Otherwise the key's fields with the sum put back at the 1-based
/// column.
pub open spec fn render(key: Seq<u8>, sum: nat, column: nat, d: u8, sum_first: bool) -> Seq<u8> {
    if sum_first {
        decimal(sum) + seq![d] + key
    } else {
        join(split(key, d).insert(column - 1, decimal(sum)), d)
    }
}

/// The rows of a list of groups, in its order.
pub open spec fn rows_of(groups: Sums, column: nat, d: u8, sum_first: bool) -> Seq<Seq<u8>> {
    Seq::new(groups.len(), |i: int| render(groups[i].0, groups[i].1, column, d, sum_first))
}

/// Putting a group at a position that only smaller sums follow, and that
/// follows a sum at least as large, is `placed`.
pub proof fn lemma_placed_at(sorted: Sums, group: (Seq<u8>, nat), p: int)
    requires
        0 <= p <= sorted.len(),
        forall|j: int| p <= j < sorted.len() ==> (#[trigger] sorted[j]).1 < group.1,
        p > 0 ==> sorted[p - 1].1 >= group.1,
    ensures
        placed(sorted, group) == sorted.insert(p, group),
    decreases sorted.len(),
{
    if sorted.len() == 0 {
        assert(seq![group] =~= sorted.insert(p, group));
    } else if p == sorted.len() {
        assert(sorted.push(group) =~= sorted.insert(p, group));
    } else {
        assert(sorted[sorted.len() - 1].1 < group.1);
        let head = sorted.drop_last();
        assert forall|j: int| p <= j < head.len() implies (#[trigger] head[j]).1 < group.1 by {
            assert(head[j] == sorted[j]);
        }
        lemma_placed_at(head, group, p);
        assert(head.insert(p, group).push(sorted.last()) =~= sorted.insert(p, group));
    }
}

/// `placed` holds the groups it was given, and the new one.
pub proof fn lemma_placed_multiset(sorted: Sums, group: (Seq<u8>, nat))
    ensures
        placed(sorted, group).to_multiset() == sorted.to_multiset().insert(group),
        placed(sorted, group).len() == sorted.len() + 1,
    decreases sorted.len(),
{
    if sorted.len() == 0 {
        assert(seq![group] =~= sorted.push(group));
        to_multiset_build(sorted, group);
    } else if sorted.last().1 >= group.1 {
        to_multiset_build(sorted, group);
    } else {
        let head = sorted.drop_last();
        lemma_placed_multiset(head, group);
        to_multiset_build(placed(head, group), sorted.last());
        to_multiset_build(head, sorted.last());
        assert(head.push(sorted.last()) =~= sorted);
        assert(head.to_multiset().insert(group).insert(sorted.last()) =~= head.to_multiset().insert(
            sorted.last(),
        ).insert(group));
    }
}

/// `placed` keeps a lower bound on the sums that the new group meets too.
pub proof fn lemma_placed_bounded(sorted: Sums, group: (Seq<u8>, nat), bound: nat)
    requires
        forall|i: int| 0 <= i < sorted.len() ==> (#[trigger] sorted[i]).1 >= bound,
        group.1 >= bound,
    ensures
        forall|i: int|
            0 <= i < placed(sorted, group).len() ==> (#[trigger] placed(sorted, group)[i]).1
                >= bound,
    decreases sorted.len(),
{
    if sorted.len() > 0 && sorted.last().1 < group.1 {
        let head = sorted.drop_last();
        assert forall|i: int| 0 <= i < head.len() implies (#[trigger] head[i]).1 >= bound by {
            assert(head[i] == sorted[i]);
        }
        lemma_placed_bounded(head, group, bound);
        let inner = placed(head, group);
        assert forall|i: int| 0 <= i < inner.push(sorted.last()).len() implies (
        #[trigger] inner.push(sorted.last())[i]).1 >= bound by {
            if i < inner.len() {
                assert(inner[i].1 >= bound);
            } else {
                assert(sorted[sorted.len() - 1].1 >= bound);
            }
        }
    } else if sorted.len() > 0 {
        assert forall|i: int| 0 <= i < sorted.push(group).len() implies (#[trigger] sorted.push(
            group,
        )[i]).1 >= bound by {
            if i < sorted.len() {
                assert(sorted[i].1 >= bound);
            }
        }
    }
}

/// `placed` keeps a descending list descending.
pub proof fn lemma_placed_descending(sorted: Sums, group: (Seq<u8>, nat))
    requires
        descending(sorted),
    ensures
        descending(placed(sorted, group)),
    decreases sorted.len(),
{
    if sorted.len() > 0 && sorted.last().1 < group.1 {
        let head = sorted.drop_last();
        let last = sorted.last();
        assert(descending(head)) by {
            assert forall|i: int, j: int| 0 <= i < j < head.len() implies head[i].1
                >= head[j].1 by {
                assert(head[i] == sorted[i] && head[j] == sorted[j]);
            }
        }
        lemma_placed_descending(head, group);
        assert forall|i: int| 0 <= i < head.len() implies (#[trigger] head[i]).1 >= last.1 by {
            assert(head[i] == sorted[i]);
        }
        lemma_placed_bounded(head, group, last.1);
    }
}

/// `placed` has the keys it was given and the key of the new group, and keeps
/// them distinct where that key is new.
pub proof fn lemma_placed_keys(sorted: Sums, group: (Seq<u8>, nat))
    ensures
        forall|key: Seq<u8>|
            #![trigger has_key(placed(sorted, group), key)]
            has_key(placed(sorted, group), key) <==> (has_key(sorted, key) || key == group.0),
        distinct_keys(sorted) && !has_key(sorted, group.0) ==> distinct_keys(
            placed(sorted, group),
        ),
    decreases sorted.len(),
{
    let result = placed(sorted, group);
    if sorted.len() == 0 || sorted.last().1 >= group.1 {
        assert(result =~= sorted.push(group));
        lemma_push_keys(sorted, group);
        assert forall|key: Seq<u8>| has_key(result, key) <==> (has_key(sorted, key) || key
            == group.0) by {
            assert(has_key(sorted.push(group), key) <==> (has_key(sorted, key) || key == group.0));
        }
    } else {
        let head = sorted.drop_last();
        let last = sorted.last();
        let inner = placed(head, group);
        assert(head.push(last) =~= sorted);
        lemma_push_keys(head, last);
        lemma_placed_keys(head, group);
        lemma_push_keys(inner, last);
        assert forall|key: Seq<u8>| has_key(result, key) <==> (has_key(sorted, key) || key
            == group.0) by {
            assert(has_key(inner.push(last), key) <==> (has_key(inner, key) || key == last.0));
            assert(has_key(inner, key) <==> (has_key(head, key) || key == group.0));
            assert(has_key(head.push(last), key) <==> (has_key(head, key) || key == last.0));
        }
        if distinct_keys(sorted) && !has_key(sorted, group.0) {
            assert(has_key(head.push(last), group.0) <==> (has_key(head, group.0) || group.0
                == last.0));
            assert(has_key(inner, last.0) <==> (has_key(head, last.0) || last.0 == group.0));
        }
    }
}

/// Ranking keeps the keys: the same ones, and distinct where they were.
pub proof fn lemma_ranked_keys(groups: Sums)
    ensures
        forall|key: Seq<u8>|
            #![trigger has_key(ranked(groups), key)]
            has_key(ranked(groups), key) <==> has_key(groups, key),
        distinct_keys(groups) ==> distinct_keys(ranked(groups)),
    decreases groups.len(),
{
    if groups.len() > 0 {
        let head = groups.drop_last();
        let last = groups.last();
        assert(head.push(last) =~= groups);
        lemma_push_keys(head, last);
        lemma_ranked_keys(head);
        lemma_placed_keys(ranked(head), last);
        assert forall|key: Seq<u8>| has_key(ranked(groups), key) <==> has_key(groups, key) by {
            assert(has_key(placed(ranked(head), last), key) <==> (has_key(ranked(head), key)
                || key == last.0));
            assert(has_key(ranked(head), key) <==> has_key(head, key));
            assert(has_key(head.push(last), key) <==> (has_key(head, key) || key == last.0));
        }
        if distinct_keys(groups) {
            assert(has_key(ranked(head), last.0) <==> has_key(head, last.0));
        }
    } else {
        assert forall|key: Seq<u8>| has_key(ranked(groups), key) <==> has_key(groups, key) by {
            assert(ranked(groups).len() == 0);
        }
    }
}

/// Ranking lists the sums in non-increasing order.
pub proof fn lemma_ranked_descending(groups: Sums)
    ensures
        descending(ranked(groups)),
    decreases groups.len(),
{
    if groups.len() > 0 {
        lemma_ranked_descending(groups.drop_last());
        lemma_placed_descending(ranked(groups.drop_last()), groups.last());
    }
}

/// Ranking rearranges the groups: it drops none, adds none and changes none.
pub proof fn lemma_ranked_permutation(groups: Sums)
    ensures
        ranked(groups).to_multiset() == groups.to_multiset(),
        ranked(groups).len() == groups.len(),
    decreases groups.len(),
{
    if groups.len() > 0 {
        let head = groups.drop_last();
        lemma_ranked_permutation(head);
        lemma_placed_multiset(ranked(head), groups.last());
        to_multiset_build(head, groups.last());
        assert(head.push(groups.last()) =~= groups);
    } else {
        assert(groups =~= Sums::empty());
    }
}

/// Two orders of the same groups give the same rows, in whatever order.
pub proof fn lemma_rows_any_order(a: Sums, b: Sums, column: nat, d: u8, sum_first: bool)
    requires
        a.to_multiset() == b.to_multiset(),
    ensures
        rows_of(a, column, d, sum_first).to_multiset() == rows_of(
            b,
            column,
            d,
            sum_first,
        ).to_multiset(),
    decreases a.len(),
{
    to_multiset_len(a);
    to_multiset_len(b);
    let rows_a = rows_of(a, column, d, sum_first);
    let rows_b = rows_of(b, column, d, sum_first);
    if a.len() == 0 {
        assert(rows_a =~= rows_b);
    } else {
        let last = a.len() - 1;
        let x = a[last];
        let row = render(x.0, x.1, column, d, sum_first);
        assert(a.contains(x));
        to_multiset_contains(a, x);
        to_multiset_contains(b, x);
        let j = choose|j: int| 0 <= j < b.len() && b[j] == x;
        to_multiset_remove(a, last);
        to_multiset_remove(b, j);
        assert(a.remove(last) =~= a.drop_last());
        lemma_rows_any_order(a.drop_last(), b.remove(j), column, d, sum_first);
        let less_a = rows_of(a.drop_last(), column, d, sum_first);
        let less_b = rows_of(b.remove(j), column, d, sum_first);
        assert(rows_a =~= less_a.push(row));
        to_multiset_build(less_a, row);
        assert(rows_b.remove(j) =~= less_b);
        assert(rows_b[j] == row);
        to_multiset_remove(rows_b, j);
        assert(rows_b.contains(row));
        to_multiset_contains(rows_b, row);
        assert(rows_b.to_multiset() =~= rows_b.to_multiset().remove(row).insert(row));
    }
}

/// Putting the sum back at the column restores the layout of the record that
/// the key came from: the same fields, with the sum in place of the value.
/// This holds of a record of two or more fields that hold no separator; where
/// the separator is no digit, the written row splits into those fields again.
pub proof fn lemma_render_restores(fields: Seq<Seq<u8>>, column: nat, d: u8, sum: nat)
    requires
        fields.len() >= 2,
        1 <= column <= fields.len(),
        free_of(fields, d),
    ensures
        split(group_key(fields, column, d), d).insert(column - 1, decimal(sum)).len()
            == fields.len(),
        render(group_key(fields, column, d), sum, column, d, false) == join(
            fields.update(column - 1, decimal(sum)),
            d,
        ),
        !is_digit(d) ==> split(render(group_key(fields, column, d), sum, column, d, false), d)
            == fields.update(column - 1, decimal(sum)),
{
    let rest = fields.remove(column - 1);
    assert(free_of(rest, d)) by {
        assert forall|i: int, j: int|
            0 <= i < rest.len() && 0 <= j < rest[i].len() implies (#[trigger] rest[i][j])
            != d by {
            if i < column - 1 {
                assert(rest[i][j] == fields[i][j]);
            } else {
                assert(rest[i][j] == fields[i + 1][j]);
            }
        }
    }
    lemma_split_join(rest, d);
    let restored = fields.update(column - 1, decimal(sum));
    assert(rest.insert(column - 1, decimal(sum)) =~= restored);
    if !is_digit(d) {
        lemma_decimal_digits(sum);
        assert(free_of(restored, d)) by {
            assert forall|i: int, j: int|
                0 <= i < restored.len() && 0 <= j < restored[i].len() implies (
            #[trigger] restored[i][j]) != d by {
                if i == column - 1 {
                    assert(is_digit(decimal(sum)[j]));
                } else {
                    assert(restored[i][j] == fields[i][j]);
                }
            }
        }
        lemma_split_join(restored, d);
    }
}

/// Orders the groups by descending sum; groups of equal sum keep their order.
pub fn rank(entries: Vec<Entry>) -> (sorted: Vec<Entry>)
    ensures
        groups_view(&sorted) == ranked(groups_view(&entries)),
        descending(groups_view(&sorted)),
        groups_view(&sorted).to_multiset() == groups_view(&entries).to_multiset(),
{
    let ghost all = groups_view(&entries);
    let mut v = entries;
    let mut i: usize = 0;
    assert(groups_view(&v) =~= ranked(all.take(0)) + all.skip(0));
    while i < v.len()
        invariant
            i <= v.len(),
            v.len() == all.len(),
            groups_view(&v) == ranked(all.take(i as int)) + all.skip(i as int),
        decreases v.len() - i,
    {
        let ghost sorted = ranked(all.take(i as int));
        proof {
            lemma_ranked_permutation(all.take(i as int));
        }
        let ghost before = groups_view(&v);
        let e = v.remove(i);
        let ghost removed = groups_view(&v);
        proof {
            assert(e@ == before[i as int]);
            assert(e@ == all[i as int]);
            assert(removed =~= before.remove(i as int));
            assert(before.remove(i as int) =~= sorted + all.skip(i + 1));
            assert forall|j: int| 0 <= j < i implies v@[j]@ == #[trigger] sorted[j] by {
                assert(removed[j] == sorted[j]);
            }
        }
        let mut p: usize = i;
        while p > 0 && v[p - 1].sum < e.sum
            invariant
                p <= i,
                i <= v.len(),
                sorted.len() == i,
                forall|j: int| 0 <= j < i ==> v@[j]@ == #[trigger] sorted[j],
                forall|j: int| p <= j < i ==> (#[trigger] sorted[j]).1 < e.sum,
            decreases p,
        {
            assert(sorted[p - 1] == v@[p - 1]@);
            p -= 1;
        }
        proof {
            if p > 0 {
                assert(sorted[p - 1] == v@[p - 1]@);
            }
            lemma_placed_at(sorted, e@, p as int);
            assert(all.take(i + 1).drop_last() =~= all.take(i as int));
            assert(all.take(i + 1).last() == e@);
        }
        v.insert(p, e);
        proof {
            assert(groups_view(&v) =~= removed.insert(p as int, e@));
            assert(removed.insert(p as int, e@) =~= sorted.insert(p as int, e@) + all.skip(i + 1));
        }
        i += 1;
    }
    proof {
        assert(all.take(all.len() as int) =~= all);
        assert(ranked(all) + all.skip(all.len() as int) =~= ranked(all));
        lemma_ranked_descending(all);
        lemma_ranked_permutation(all);
    }
    v
}

/// Writes the output row of one group.
pub fn render_row(key: &[u8], sum: u64, column: usize, d: u8, sum_first: bool) -> (line: Vec<u8>)
    requires
        !sum_first ==> 1 <= column <= split(key@, d).len() + 1,
    ensures
        line@ == render(key@, sum as nat, column as nat, d, sum_first),
{
    if sum_first {
        let mut line = format_number(sum);
        line.push(d);
        append_bytes(&mut line, key);
        line
    } else {
        let mut parts = split_line(key, d);
        let ghost before = fields_view(&parts);
        parts.insert(column - 1, format_number(sum));
        proof {
            assert(fields_view(&parts) =~= before.insert(column - 1, decimal(sum as nat)));
        }
        join_fields(&parts, d)
    }
}

} // verus!
