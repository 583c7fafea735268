use crate::accumulator::{
    accumulated, aggregate, distinct_keys, groups_view, has_key, lemma_aggregate_distinct,
    lemma_aggregate_keys, lemma_aggregate_same_groups, lemma_aggregate_total, lemma_first_index,
    lemma_first_index_is, total, Accumulator, Entry, Sums,
};
use crate::config::Config;
use crate::emit::{
    descending, lemma_ranked_descending, lemma_ranked_keys, lemma_ranked_permutation,
    lemma_render_restores, lemma_rows_any_order, rank, ranked, render_row, rows_of,
};
use crate::error::{RunError, Failure};
use crate::extract::{extract, extraction, group_key, has_column};
use crate::number::{decimal, parse_value};
use crate::reader::{csv_records, describe, read_records};
use crate::record::{
    drop_column, fields_view, free_of, join, join_fields, lemma_split_join_len, split,
    without_column,
};
use vstd::prelude::*;
use vstd::seq_lib::{to_multiset_build, to_multiset_contains, to_multiset_len, to_multiset_remove};

verus! {

/// What a vector of records stands for: the sequence of their field
/// sequences.
pub open spec fn records_view(records: &Vec<Vec<Vec<u8>>>) -> Seq<Seq<Seq<u8>>> {
    Seq::new(records@.len(), |i: int| fields_view(&records@[i]))
}

/// No field of any record holds the separator.
pub open spec fn separated(rows: Seq<Seq<Seq<u8>>>, d: u8) -> bool {
    forall|i: int| 0 <= i < rows.len() ==> free_of(#[trigger] rows[i], d)
}

/// What the result of a run stands for.
pub open spec fn result_view(r: Result<Vec<Vec<u8>>, RunError>) -> Result<Seq<Seq<u8>>, Failure> {
    match r {
        Ok(lines) => Ok(fields_view(&lines)),
        Err(e) => Err(e@),
    }
}

/// The key and the value of a record that has both.
pub open spec fn pair_of(fields: Seq<Seq<u8>>, column: nat, d: u8) -> (Seq<u8>, nat) {
    match extraction(fields, column, d, 0) {
        Ok(pair) => (pair.1, pair.0 as nat),
        Err(_) => (group_key(fields, column, d), 0),
    }
}

/// The keys and values of the records, in their order.
pub open spec fn pairs_of(rows: Seq<Seq<Seq<u8>>>, column: nat, d: u8) -> Sums {
    Seq::new(rows.len(), |i: int| pair_of(rows[i], column, d))
}

/// The records that are aggregated: all of them, or all but the header.
pub open spec fn data_rows(rows: Seq<Seq<Seq<u8>>>, has_headers: bool) -> Seq<Seq<Seq<u8>>> {
    if has_headers && rows.len() > 0 {
        rows.skip(1)
    } else {
        rows
    }
}

/// The header line of an input: its first record without the field at the
/// column, joined. An input without records has an empty header.
pub open spec fn header_line(rows: Seq<Seq<Seq<u8>>>, column: nat, d: u8) -> Seq<u8> {
    if rows.len() > 0 {
        join(without_column(rows[0], column), d)
    } else {
        Seq::empty()
    }
}

/// The data record at `i` has a value, and the values of its group, up to and
/// with this record, add up to no more than `u64::MAX`.
pub open spec fn accepted(data: Seq<Seq<Seq<u8>>>, i: int, column: nat, d: u8) -> bool {
    extraction(data[i], column, d, (i + 1) as nat) is Ok && total(
        pairs_of(data.take(i + 1), column, d),
        pair_of(data[i], column, d).0,
    ) <= u64::MAX
}

/// The error that the data record at `i` raises where it is not accepted.
pub open spec fn failure_at(data: Seq<Seq<Seq<u8>>>, i: int, column: nat, d: u8) -> Failure {
    match extraction(data[i], column, d, (i + 1) as nat) {
        Err(f) => f,
        Ok(_) => Failure::Overflow { line: (i + 1) as nat },
    }
}

/// The line that an error of a run names; 0 for the others.
pub open spec fn line_of(f: Failure) -> nat {
    match f {
        Failure::MissingColumn { column, line } => line,
        Failure::InvalidValue { text, line } => line,
        Failure::Overflow { line } => line,
        _ => 0,
    }
}

/// The groups of the data records in the order in which they are written:
/// by descending sum where that is asked for, else as their keys were first
/// seen.
pub open spec fn listed(data: Seq<Seq<Seq<u8>>>, config: Config) -> Sums {
    let groups = aggregate(pairs_of(data, config.column as nat, config.delimiter.0));
    if config.sorted {
        ranked(groups)
    } else {
        groups
    }
}

/// The lines that a run writes: the header where there is one, then one row
/// for each group.
pub open spec fn output(rows: Seq<Seq<Seq<u8>>>, config: Config) -> Seq<Seq<u8>> {
    let body = rows_of(
        listed(data_rows(rows, config.has_headers), config),
        config.column as nat,
        config.delimiter.0,
        config.sum_first,
    );
    if config.has_headers {
        seq![header_line(rows, config.column as nat, config.delimiter.0)] + body
    } else {
        body
    }
}

/// What a run on `rows` gives. It succeeds where every data record is
/// accepted, and then gives `output`. Else it gives the error of the first
/// record that is not accepted, whose line the error names.
pub open spec fn collapsed(
    rows: Seq<Seq<Seq<u8>>>,
    config: Config,
    r: Result<Seq<Seq<u8>>, Failure>,
) -> bool {
    let data = data_rows(rows, config.has_headers);
    let column = config.column as nat;
    let d = config.delimiter.0;
    match r {
        Ok(lines) => lines == output(rows, config) && forall|i: int|
            0 <= i < data.len() ==> accepted(data, i, column, d),
        Err(f) => {
            let i = line_of(f) - 1;
            &&& 0 <= i < data.len()
            &&& forall|j: int| 0 <= j < i ==> accepted(data, j, column, d)
            &&& !accepted(data, i, column, d)
            &&& f == failure_at(data, i, column, d)
        },
    }
}

/// The sum can be put back at the column of every key.
pub open spec fn placeable(groups: Sums, column: nat, d: u8) -> bool {
    forall|k: int|
        0 <= k < groups.len() ==> 1 <= column <= split((#[trigger] groups[k]).0, d).len() + 1
}

/// With a header, the first line written is the header line: the first
/// record without its field at the column, joined as the key of a data record
/// is. The lines after it are those of a run without header on the records
/// after the first, so the header takes no part in the sums.
pub proof fn lemma_header_first(rows: Seq<Seq<Seq<u8>>>, config: Config)
    requires
        config.has_headers,
    ensures
        output(rows, config).len() >= 1,
        output(rows, config)[0] == header_line(rows, config.column as nat, config.delimiter.0),
        rows.len() > 0 ==> output(rows, config)[0] == group_key(
            rows[0],
            config.column as nat,
            config.delimiter.0,
        ),
        output(rows, config).skip(1) == output(
            data_rows(rows, true),
            (Config { has_headers: false, ..config }),
        ),
{
    let plain = Config { has_headers: false, ..config };
    let data = data_rows(rows, true);
    assert(listed(data, config) == listed(data, plain));
    assert(output(rows, config).skip(1) =~= output(data, plain));
}

/// Every group that a run writes has as its sum the arithmetic sum of the
/// values of the data records with its key.
pub proof fn lemma_listed_sums(data: Seq<Seq<Seq<u8>>>, config: Config, k: int)
    requires
        0 <= k < listed(data, config).len(),
    ensures
        listed(data, config)[k].1 == total(
            pairs_of(data, config.column as nat, config.delimiter.0),
            listed(data, config)[k].0,
        ),
{
    let pairs = pairs_of(data, config.column as nat, config.delimiter.0);
    let groups = aggregate(pairs);
    let group = listed(data, config)[k];
    lemma_aggregate_keys(pairs);
    lemma_member(groups, config.sorted, k);
    let j = choose|j: int| 0 <= j < groups.len() && groups[j] == group;
    lemma_first_index(groups, group.0);
    lemma_first_index_is(groups, group.0, j);
    lemma_aggregate_total(pairs, group.0);
}

/// A run writes one row for each key of the data records: the written groups
/// have distinct keys, and a key is among them where some data record has it,
/// and only there.
pub proof fn lemma_listed_keys(data: Seq<Seq<Seq<u8>>>, config: Config)
    ensures
        distinct_keys(listed(data, config)),
        forall|key: Seq<u8>|
            #![trigger has_key(listed(data, config), key)]
            has_key(listed(data, config), key) <==> has_key(
                pairs_of(data, config.column as nat, config.delimiter.0),
                key,
            ),
{
    let pairs = pairs_of(data, config.column as nat, config.delimiter.0);
    lemma_aggregate_keys(pairs);
    lemma_ranked_keys(aggregate(pairs));
}

/// Where a listing by sum is asked for, no written sum is followed by a
/// larger one, and the groups and their rows are those of the listing without
/// that order.
pub proof fn lemma_sorted_descending(data: Seq<Seq<Seq<u8>>>, config: Config)
    requires
        config.sorted,
    ensures
        descending(listed(data, config)),
        listed(data, config).to_multiset() == listed(
            data,
            (Config { sorted: false, ..config }),
        ).to_multiset(),
        rows_of(
            listed(data, config),
            config.column as nat,
            config.delimiter.0,
            config.sum_first,
        ).to_multiset() == rows_of(
            listed(data, (Config { sorted: false, ..config })),
            config.column as nat,
            config.delimiter.0,
            config.sum_first,
        ).to_multiset(),
{
    let groups = aggregate(pairs_of(data, config.column as nat, config.delimiter.0));
    lemma_ranked_descending(groups);
    lemma_ranked_permutation(groups);
    lemma_rows_any_order(
        ranked(groups),
        groups,
        config.column as nat,
        config.delimiter.0,
        config.sum_first,
    );
}

/// Two orders of the same records have the same keys and values.
pub proof fn lemma_pairs_any_order(
    one: Seq<Seq<Seq<u8>>>,
    two: Seq<Seq<Seq<u8>>>,
    column: nat,
    d: u8,
)
    requires
        one.to_multiset() == two.to_multiset(),
    ensures
        pairs_of(one, column, d).to_multiset() == pairs_of(two, column, d).to_multiset(),
    decreases one.len(),
{
    to_multiset_len(one);
    to_multiset_len(two);
    let pairs_one = pairs_of(one, column, d);
    let pairs_two = pairs_of(two, column, d);
    if one.len() == 0 {
        assert(pairs_one =~= pairs_two);
    } else {
        let last = one.len() - 1;
        let x = one[last];
        let pair = pair_of(x, column, d);
        assert(one.contains(x));
        to_multiset_contains(one, x);
        to_multiset_contains(two, x);
        let j = choose|j: int| 0 <= j < two.len() && two[j] == x;
        to_multiset_remove(one, last);
        to_multiset_remove(two, j);
        assert(one.remove(last) =~= one.drop_last());
        lemma_pairs_any_order(one.drop_last(), two.remove(j), column, d);
        let less_one = pairs_of(one.drop_last(), column, d);
        let less_two = pairs_of(two.remove(j), column, d);
        assert(pairs_one =~= less_one.push(pair));
        to_multiset_build(less_one, pair);
        assert(pairs_two.remove(j) =~= less_two);
        assert(pairs_two[j] == pair);
        to_multiset_remove(pairs_two, j);
        assert(pairs_two.contains(pair));
        to_multiset_contains(pairs_two, pair);
        assert(pairs_two.to_multiset() =~= pairs_two.to_multiset().remove(pair).insert(pair));
    }
}

/// The groups that a run writes, and its rows, are the same for any two
/// orders of the same data records.
pub proof fn lemma_listed_any_order(
    one: Seq<Seq<Seq<u8>>>,
    two: Seq<Seq<Seq<u8>>>,
    config: Config,
)
    requires
        one.to_multiset() == two.to_multiset(),
    ensures
        listed(one, config).to_multiset() == listed(two, config).to_multiset(),
        rows_of(
            listed(one, config),
            config.column as nat,
            config.delimiter.0,
            config.sum_first,
        ).to_multiset() == rows_of(
            listed(two, config),
            config.column as nat,
            config.delimiter.0,
            config.sum_first,
        ).to_multiset(),
{
    let a = pairs_of(one, config.column as nat, config.delimiter.0);
    let b = pairs_of(two, config.column as nat, config.delimiter.0);
    lemma_pairs_any_order(one, two, config.column as nat, config.delimiter.0);
    lemma_aggregate_same_groups(a, b);
    lemma_ranked_permutation(aggregate(a));
    lemma_ranked_permutation(aggregate(b));
    lemma_rows_any_order(
        listed(one, config),
        listed(two, config),
        config.column as nat,
        config.delimiter.0,
        config.sum_first,
    );
}

/// The field is the decimal text of its own value: digits only, no sign and no
/// leading zeros.
pub open spec fn canonical(field: Seq<u8>) -> bool {
    match parse_value(field) {
        Some(value) => decimal(value as nat) == field,
        None => false,
    }
}

/// The records joined into lines, one for one.
pub open spec fn joined(data: Seq<Seq<Seq<u8>>>, d: u8) -> Seq<Seq<u8>> {
    Seq::new(data.len(), |i: int| join(data[i], d))
}

/// Where no two records share a key, a run without header that puts the sum
/// back at the column writes the records back byte for byte: in their order
/// where no order by sum is asked for, and in some order where it is. This
/// holds of records of two or more fields that hold no separator, with a
/// canonical number at the column.
pub proof fn lemma_distinct_records_return(data: Seq<Seq<Seq<u8>>>, config: Config)
    requires
        !config.has_headers,
        !config.sum_first,
        separated(data, config.delimiter.0),
        forall|i: int|
            0 <= i < data.len() ==> (#[trigger] data[i]).len() >= 2 && has_column(
                data[i],
                config.column as nat,
            ) && canonical(data[i][config.column - 1]),
        distinct_keys(pairs_of(data, config.column as nat, config.delimiter.0)),
    ensures
        !config.sorted ==> output(data, config) == joined(data, config.delimiter.0),
        output(data, config).to_multiset() == joined(data, config.delimiter.0).to_multiset(),
{
    let column = config.column as nat;
    let d = config.delimiter.0;
    let pairs = pairs_of(data, column, d);
    lemma_aggregate_distinct(pairs);
    let plain = rows_of(pairs, column, d, false);
    assert forall|i: int| 0 <= i < data.len() implies plain[i] == join(data[i], d) by {
        let fields = data[i];
        let value = parse_value(fields[column - 1])->Some_0;
        assert(free_of(fields, d));
        lemma_render_restores(fields, column, d, value as nat);
        assert(fields.update(column - 1, decimal(value as nat)) =~= fields);
        assert(pairs[i] == (group_key(fields, column, d), value as nat));
    }
    assert(plain =~= joined(data, d));
    if config.sorted {
        lemma_ranked_permutation(pairs);
        lemma_rows_any_order(ranked(pairs), pairs, column, d, false);
    }
}

/// A run whose data records are all accepted succeeds, and writes `output`.
pub proof fn lemma_run_succeeds(
    rows: Seq<Seq<Seq<u8>>>,
    config: Config,
    r: Result<Seq<Seq<u8>>, Failure>,
)
    requires
        collapsed(rows, config, r),
        forall|i: int|
            0 <= i < data_rows(rows, config.has_headers).len() ==> accepted(
                data_rows(rows, config.has_headers),
                i,
                config.column as nat,
                config.delimiter.0,
            ),
    ensures
        r == Ok::<Seq<Seq<u8>>, Failure>(output(rows, config)),
{
}

/// A run fails fast: where the data record at `i` is the first that is not
/// accepted, the run gives that record's error, which names its line `i + 1`,
/// and no line is written. A record without the column gives `MissingColumn`
/// with the column, one whose field there is no number gives `InvalidValue`
/// with the field.
pub proof fn lemma_first_failure(
    rows: Seq<Seq<Seq<u8>>>,
    config: Config,
    r: Result<Seq<Seq<u8>>, Failure>,
    i: int,
)
    requires
        collapsed(rows, config, r),
        0 <= i < data_rows(rows, config.has_headers).len(),
        forall|j: int|
            0 <= j < i ==> accepted(
                data_rows(rows, config.has_headers),
                j,
                config.column as nat,
                config.delimiter.0,
            ),
        !accepted(
            data_rows(rows, config.has_headers),
            i,
            config.column as nat,
            config.delimiter.0,
        ),
    ensures
        r == Err::<Seq<Seq<u8>>, Failure>(
            failure_at(
                data_rows(rows, config.has_headers),
                i,
                config.column as nat,
                config.delimiter.0,
            ),
        ),
        line_of(r->Err_0) == i + 1,
        !has_column(data_rows(rows, config.has_headers)[i], config.column as nat) ==> r
            == Err::<Seq<Seq<u8>>, Failure>(
            Failure::MissingColumn { column: config.column as nat, line: (i + 1) as nat },
        ),
        has_column(data_rows(rows, config.has_headers)[i], config.column as nat) && parse_value(
            data_rows(rows, config.has_headers)[i][config.column - 1],
        ) is None ==> r == Err::<Seq<Seq<u8>>, Failure>(
            Failure::InvalidValue {
                text: data_rows(rows, config.has_headers)[i][config.column - 1],
                line: (i + 1) as nat,
            },
        ),
{
    let data = data_rows(rows, config.has_headers);
    let column = config.column as nat;
    let d = config.delimiter.0;
    match r {
        Ok(lines) => {
            assert(accepted(data, i, column, d));
        },
        Err(f) => {
            let k = line_of(f) - 1;
            if k < i {
                assert(accepted(data, k, column, d));
            } else if k > i {
                assert(accepted(data, i, column, d));
            }
        },
    }
}

/// A group of the listing is one of the groups.
proof fn lemma_member(groups: Sums, sorted: bool, k: int)
    requires
        0 <= k < (if sorted {
            ranked(groups)
        } else {
            groups
        }).len(),
    ensures
        exists|j: int|
            0 <= j < groups.len() && groups[j] == (if sorted {
                ranked(groups)
            } else {
                groups
            })[k],
{
    if sorted {
        let group = ranked(groups)[k];
        lemma_ranked_permutation(groups);
        assert(ranked(groups).contains(group));
        to_multiset_contains(ranked(groups), group);
        to_multiset_contains(groups, group);
        let j = choose|j: int| 0 <= j < groups.len() && groups[j] == group;
        assert(groups[j] == group);
    } else {
        assert(groups[k] == groups[k]);
    }
}

/// Adds up the data records, from the one at `start` on, by group.
pub fn sum_records(records: &Vec<Vec<Vec<u8>>>, start: usize, column: usize, d: u8) -> (r: Result<
    Accumulator,
    RunError,
>)
    requires
        start <= records.len(),
    ensures
        ({
            let data = records_view(records).skip(start as int);
            match r {
                Ok(acc) => {
                    &&& acc.wf()
                    &&& acc@ == aggregate(pairs_of(data, column as nat, d))
                    &&& placeable(acc@, column as nat, d)
                    &&& forall|i: int| 0 <= i < data.len() ==> accepted(data, i, column as nat, d)
                },
                Err(e) => {
                    let i = line_of(e@) - 1;
                    &&& 0 <= i < data.len()
                    &&& forall|j: int| 0 <= j < i ==> accepted(data, j, column as nat, d)
                    &&& !accepted(data, i, column as nat, d)
                    &&& e@ == failure_at(data, i, column as nat, d)
                },
            }
        }),
{
    let ghost data = records_view(records).skip(start as int);
    let mut acc = Accumulator::new();
    let mut i: usize = start;
    assert(pairs_of(data.take(0), column as nat, d) =~= Sums::empty());
    while i < records.len()
        invariant
            start <= i <= records.len(),
            data == records_view(records).skip(start as int),
            acc.wf(),
            acc@ == aggregate(pairs_of(data.take(i - start), column as nat, d)),
            placeable(acc@, column as nat, d),
            forall|j: int| 0 <= j < i - start ==> accepted(data, j, column as nat, d),
        decreases records.len() - i,
    {
        let line = i - start + 1;
        let ghost n = i - start;
        let ghost before = pairs_of(data.take(n), column as nat, d);
        let ghost after = pairs_of(data.take(n + 1), column as nat, d);
        proof {
            assert(data[n] == fields_view(&records@[i as int]));
            assert(after.drop_last() =~= before);
            assert(after.last() == pair_of(data[n], column as nat, d));
            assert(data.take(n + 1)[n] == data[n]);
        }
        match extract(&records[i], column, d, line) {
            Err(e) => {
                return Err(e);
            },
            Ok(pair) => {
                let ghost key = pair.1@;
                let ghost groups = acc@;
                proof {
                    lemma_aggregate_total(before, key);
                    lemma_split_join_len(without_column(data[n], column as nat), d);
                    lemma_first_index(groups, key);
                }
                if !acc.accumulate(pair.1, pair.0) {
                    return Err(RunError::Overflow { line });
                }
                proof {
                    assert(acc@ == accumulated(groups, key, pair.0 as nat));
                    assert forall|k: int| 0 <= k < acc@.len() implies 1 <= column <= split(
                        (#[trigger] acc@[k]).0,
                        d,
                    ).len() + 1 by {
                        if k < groups.len() && acc@[k].0 != key {
                            assert(acc@[k] == groups[k]);
                        }
                    }
                }
            },
        }
        i += 1;
    }
    proof {
        assert(data.take(data.len() as int) =~= data);
    }
    Ok(acc)
}

/// Writes one row for each group, in the order of the list.
pub fn write_rows(entries: &Vec<Entry>, column: usize, d: u8, sum_first: bool) -> (lines: Vec<
    Vec<u8>,
>)
    requires
        !sum_first ==> placeable(groups_view(entries), column as nat, d),
    ensures
        fields_view(&lines) == rows_of(groups_view(entries), column as nat, d, sum_first),
{
    let mut lines: Vec<Vec<u8>> = Vec::new();
    let mut k: usize = 0;
    let ghost groups = groups_view(entries);
    while k < entries.len()
        invariant
            k <= entries.len(),
            groups == groups_view(entries),
            !sum_first ==> placeable(groups, column as nat, d),
            fields_view(&lines) == rows_of(groups.take(k as int), column as nat, d, sum_first),
        decreases entries.len() - k,
    {
        proof {
            assert(groups[k as int] == entries@[k as int]@);
        }
        let ghost before = fields_view(&lines);
        let row = render_row(entries[k].key.as_slice(), entries[k].sum, column, d, sum_first);
        lines.push(row);
        proof {
            assert(fields_view(&lines) =~= before.push(row@));
            assert(before.push(row@) =~= rows_of(
                groups.take(k + 1),
                column as nat,
                d,
                sum_first,
            ));
        }
        k += 1;
    }
    proof {
        assert(groups.take(groups.len() as int) =~= groups);
    }
    lines
}

/// Runs on records: passes the header through where there is one, adds up the
/// values of the other records by group, and writes one row for each group.
pub fn collapse(records: &Vec<Vec<Vec<u8>>>, config: &Config) -> (r: Result<Vec<Vec<u8>>, RunError>)
    ensures
        collapsed(records_view(records), *config, result_view(r)),
{
    let column = config.column;
    let d = config.delimiter.as_byte();
    let ghost rows = records_view(records);
    let mut lines: Vec<Vec<u8>> = Vec::new();
    let mut start: usize = 0;
    if config.has_headers {
        if records.len() > 0 {
            let rest = drop_column(&records[0], column);
            lines.push(join_fields(&rest, d));
            start = 1;
        } else {
            lines.push(Vec::new());
        }
    }
    let ghost head = fields_view(&lines);
    proof {
        assert(rows.skip(start as int) =~= data_rows(rows, config.has_headers));
        if config.has_headers {
            assert(head =~= seq![header_line(rows, column as nat, d)]);
        } else {
            assert(head =~= Seq::<Seq<u8>>::empty());
        }
    }
    match sum_records(records, start, column, d) {
        Err(e) => Err(e),
        Ok(acc) => {
            let ghost groups = acc@;
            let entries = acc.into_entries();
            let entries = if config.sorted {
                rank(entries)
            } else {
                entries
            };
            proof {
                assert forall|k: int| 0 <= k < groups_view(&entries).len() implies 1 <= column
                    <= split((#[trigger] groups_view(&entries)[k]).0, d).len() + 1 by {
                    lemma_member(groups, config.sorted, k);
                }
            }
            let mut body = write_rows(&entries, column, d, config.sum_first);
            let ghost body_view = fields_view(&body);
            lines.append(&mut body);
            proof {
                assert(fields_view(&lines) =~= head + body_view);
            }
            Ok(lines)
        },
    }
}

/// What a run gives on records that were framed from a text, where `failed`
/// says that the framing broke off behind them. A record that is not accepted
/// comes first: the run fails with the error of the first such record. Else
/// the run is unreadable where the framing failed, and gives `output` where it
/// did not.
pub open spec fn framed_outcome(
    rows: Seq<Seq<Seq<u8>>>,
    failed: bool,
    config: Config,
    r: Result<Seq<Seq<u8>>, Failure>,
) -> bool {
    let data = data_rows(rows, config.has_headers);
    if r == Err::<Seq<Seq<u8>>, Failure>(Failure::Unreadable) {
        failed && forall|i: int|
            0 <= i < data.len() ==> accepted(data, i, config.column as nat, config.delimiter.0)
    } else {
        collapsed(rows, config, r) && (r is Ok ==> !failed)
    }
}

/// Runs on the records that a text was framed into. `unreadable` holds the
/// reason where the framing broke off behind these records.
pub fn collapse_framed(
    records: &Vec<Vec<Vec<u8>>>,
    unreadable: Option<String>,
    config: &Config,
) -> (r: Result<Vec<Vec<u8>>, RunError>)
    ensures
        framed_outcome(records_view(records), unreadable is Some, *config, result_view(r)),
{
    match unreadable {
        None => collapse(records, config),
        Some(reason) => {
            let start: usize = if config.has_headers && records.len() > 0 {
                1
            } else {
                0
            };
            proof {
                assert(records_view(records).skip(start as int) =~= data_rows(
                    records_view(records),
                    config.has_headers,
                ));
            }
            match sum_records(records, start, config.column, config.delimiter.as_byte()) {
                Err(e) => Err(e),
                Ok(_) => Err(RunError::Unreadable { reason }),
            }
        },
    }
}

/// Runs on a text: frames it into records and collapses them. An error of a
/// record comes before a failure of the framing behind it.
pub fn collapse_input(input: &[u8], config: &Config) -> (r: Result<Vec<Vec<u8>>, RunError>)
    ensures
        framed_outcome(
            csv_records(input@, config.delimiter.0).0,
            csv_records(input@, config.delimiter.0).1,
            *config,
            result_view(r),
        ),
{
    let framed = read_records(input, config.delimiter.as_byte());
    let unreadable = match framed.1 {
        Some(e) => Some(describe(&e)),
        None => None,
    };
    collapse_framed(&framed.0, unreadable, config)
}

} // verus!
