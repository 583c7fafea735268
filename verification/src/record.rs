use vstd::prelude::*;

verus! {

/// The fields of `line`: the pieces that lie between consecutive occurrences of
/// the separator `d`. A line with `n` separators has `n + 1` fields; nothing is
/// quoted or escaped.
pub open spec fn split(line: Seq<u8>, d: u8) -> Seq<Seq<u8>>
    decreases line.len(),
{
    if line.len() == 0 {
        seq![Seq::<u8>::empty()]
    } else {
        let before = split(line.drop_last(), d);
        if line.last() == d {
            before.push(Seq::<u8>::empty())
        } else {
            before.drop_last().push(before.last().push(line.last()))
        }
    }
}

/// The fields written one after another with the separator `d` between
/// neighbours.
pub open spec fn join(fields: Seq<Seq<u8>>, d: u8) -> Seq<u8>
    decreases fields.len(),
{
    if fields.len() == 0 {
        Seq::<u8>::empty()
    } else if fields.len() == 1 {
        fields[0]
    } else {
        join(fields.drop_last(), d) + seq![d] + fields.last()
    }
}

/// No field holds the separator.
pub open spec fn free_of(fields: Seq<Seq<u8>>, d: u8) -> bool {
    forall|i: int, j: int|
        0 <= i < fields.len() && 0 <= j < fields[i].len() ==> (#[trigger] fields[i][j]) != d
}

/// The record without the field at the 1-based `column`; a record that has no
/// such field is left as it is.
pub open spec fn without_column(fields: Seq<Seq<u8>>, column: nat) -> Seq<Seq<u8>> {
    if 1 <= column <= fields.len() {
        fields.remove(column - 1)
    } else {
        fields
    }
}

/// What a record of byte vectors stands for: the sequence of its fields.
pub open spec fn fields_view(record: &Vec<Vec<u8>>) -> Seq<Seq<u8>> {
    Seq::new(record@.len(), |i: int| record@[i]@)
}

pub proof fn lemma_split_nonempty(line: Seq<u8>, d: u8)
    ensures
        split(line, d).len() >= 1,
    decreases line.len(),
{
    if line.len() > 0 {
        lemma_split_nonempty(line.drop_last(), d);
    }
}

/// Appending bytes to a line never lowers its number of fields.
pub proof fn lemma_split_grows(a: Seq<u8>, b: Seq<u8>, d: u8)
    ensures
        split(a + b, d).len() >= split(a, d).len(),
    decreases b.len(),
{
    if b.len() == 0 {
        assert(a + b =~= a);
    } else {
        assert((a + b).drop_last() =~= a + b.drop_last());
        lemma_split_grows(a, b.drop_last(), d);
        lemma_split_nonempty(a + b.drop_last(), d);
    }
}

/// Appending bytes other than the separator extends the last field.
pub proof fn lemma_split_extend(a: Seq<u8>, b: Seq<u8>, d: u8)
    requires
        forall|j: int| 0 <= j < b.len() ==> b[j] != d,
    ensures
        split(a, d).len() >= 1,
        split(a + b, d) == split(a, d).drop_last().push(split(a, d).last() + b),
    decreases b.len(),
{
    lemma_split_nonempty(a, d);
    let s = split(a, d);
    if b.len() == 0 {
        assert(a + b =~= a);
        assert(s.last() + b =~= s.last());
        assert(s.drop_last().push(s.last()) =~= s);
    } else {
        let b0 = b.drop_last();
        assert((a + b).drop_last() =~= a + b0);
        lemma_split_extend(a, b0, d);
        let t = split(a + b0, d);
        assert(t.drop_last() =~= s.drop_last());
        assert(t.last().push(b.last()) =~= s.last() + b);
    }
}

/// Splitting undoes joining, for a record of at least one field whose fields
/// hold no separator.
pub proof fn lemma_split_join(fields: Seq<Seq<u8>>, d: u8)
    requires
        fields.len() >= 1,
        free_of(fields, d),
    ensures
        split(join(fields, d), d) == fields,
    decreases fields.len(),
{
    if fields.len() == 1 {
        let e = Seq::<u8>::empty();
        lemma_split_extend(e, fields[0], d);
        assert(e + fields[0] =~= fields[0]);
        assert(split(e, d) =~= seq![e]);
        assert(seq![e].drop_last().push(e + fields[0]) =~= fields);
    } else {
        let head = fields.drop_last();
        assert(free_of(head, d)) by {
            assert forall|i: int, j: int|
                0 <= i < head.len() && 0 <= j < head[i].len() implies (#[trigger] head[i][j])
                != d by {
                assert(head[i][j] == fields[i][j]);
            }
        }
        lemma_split_join(head, d);
        let a = join(head, d) + seq![d];
        assert(a.drop_last() =~= join(head, d));
        assert(split(a, d) == head.push(Seq::<u8>::empty()));
        lemma_split_extend(a, fields.last(), d);
        assert(head.push(Seq::<u8>::empty()).drop_last().push(
            Seq::<u8>::empty() + fields.last(),
        ) =~= fields);
    }
}

/// A joined record splits into at least as many fields as were joined,
/// whatever the fields hold.
pub proof fn lemma_split_join_len(fields: Seq<Seq<u8>>, d: u8)
    ensures
        split(join(fields, d), d).len() >= fields.len(),
        split(join(fields, d), d).len() >= 1,
    decreases fields.len(),
{
    lemma_split_nonempty(join(fields, d), d);
    if fields.len() >= 2 {
        let head = fields.drop_last();
        lemma_split_join_len(head, d);
        let a = join(head, d) + seq![d];
        assert(a.drop_last() =~= join(head, d));
        lemma_split_grows(a, fields.last(), d);
    }
}

/// Joining the fields of a line gives the line back, whatever the line holds.
pub proof fn lemma_join_split(line: Seq<u8>, d: u8)
    ensures
        join(split(line, d), d) == line,
    decreases line.len(),
{
    let e = Seq::<u8>::empty();
    if line.len() == 0 {
        assert(join(split(line, d), d) =~= line);
    } else {
        let head = line.drop_last();
        let b = line.last();
        let before = split(head, d);
        lemma_split_nonempty(head, d);
        lemma_join_split(head, d);
        if b == d {
            assert(before.push(e).drop_last() =~= before);
            assert(head + seq![d] + e =~= line);
        } else {
            let fields = before.drop_last().push(before.last().push(b));
            if before.len() == 1 {
                assert(fields[0] =~= line);
            } else {
                let front = join(before.drop_last(), d) + seq![d];
                assert(fields.drop_last() =~= before.drop_last());
                assert(front + before.last().push(b) =~= (front + before.last()).push(b));
                assert(head.push(b) =~= line);
            }
        }
    }
}

/// Appends the bytes of `src` to `dst`.
pub fn append_bytes(dst: &mut Vec<u8>, src: &[u8])
    ensures
        final(dst)@ == old(dst)@ + src@,
{
    let mut i: usize = 0;
    while i < src.len()
        invariant
            i <= src.len(),
            dst@ == old(dst)@ + src@.take(i as int),
        decreases src.len() - i,
    {
        dst.push(src[i]);
        proof {
            assert(src@.take(i + 1) =~= src@.take(i as int).push(src@[i as int]));
        }
        i += 1;
    }
    proof {
        assert(src@.take(src@.len() as int) =~= src@);
    }
}

/// Cuts `line` at every occurrence of `d`.
pub fn split_line(line: &[u8], d: u8) -> (fields: Vec<Vec<u8>>)
    ensures
        fields_view(&fields) == split(line@, d),
{
    let mut done: Vec<Vec<u8>> = Vec::new();
    let mut current: Vec<u8> = Vec::new();
    let mut i: usize = 0;
    assert(line@.take(0) =~= Seq::<u8>::empty());
    assert(fields_view(&done).push(current@) =~= seq![Seq::<u8>::empty()]);
    while i < line.len()
        invariant
            i <= line.len(),
            fields_view(&done).push(current@) == split(line@.take(i as int), d),
        decreases line.len() - i,
    {
        let b = line[i];
        let ghost before = fields_view(&done).push(current@);
        proof {
            assert(line@.take(i + 1).drop_last() =~= line@.take(i as int));
            assert(line@.take(i + 1).last() == b);
        }
        if b == d {
            done.push(current);
            current = Vec::new();
            proof {
                assert(fields_view(&done).push(current@) =~= before.push(Seq::<u8>::empty()));
            }
        } else {
            current.push(b);
            proof {
                assert(fields_view(&done).push(current@) =~= before.drop_last().push(
                    before.last().push(b),
                ));
            }
        }
        i += 1;
    }
    proof {
        assert(line@.take(line@.len() as int) =~= line@);
        assert(fields_view(&done).push(current@).len() == done@.len() + 1);
    }
    let ghost before = fields_view(&done).push(current@);
    done.push(current);
    proof {
        assert(fields_view(&done) =~= before);
    }
    done
}

/// Writes the fields one after another with `d` between neighbours.
pub fn join_fields(fields: &Vec<Vec<u8>>, d: u8) -> (line: Vec<u8>)
    ensures
        line@ == join(fields_view(fields), d),
{
    let mut line: Vec<u8> = Vec::new();
    let mut i: usize = 0;
    let ghost all = fields_view(fields);
    while i < fields.len()
        invariant
            i <= fields.len(),
            all == fields_view(fields),
            line@ == join(all.take(i as int), d),
        decreases fields.len() - i,
    {
        proof {
            assert(all.take(i + 1).drop_last() =~= all.take(i as int));
            assert(all.take(i + 1).last() == fields@[i as int]@);
            if i == 0 {
                assert(all.take(1)[0] == fields@[0]@);
                assert(Seq::<u8>::empty() + fields@[0]@ =~= fields@[0]@);
            }
        }
        if i > 0 {
            line.push(d);
        }
        append_bytes(&mut line, fields[i].as_slice());
        i += 1;
    }
    proof {
        assert(all.take(all.len() as int) =~= all);
    }
    line
}

/// Whether two byte strings are the same.
pub fn bytes_equal(a: &[u8], b: &[u8]) -> (same: bool)
    ensures
        same == (a@ == b@),
{
    if a.len() != b.len() {
        return false;
    }
    let mut i: usize = 0;
    while i < a.len()
        invariant
            i <= a.len(),
            a.len() == b.len(),
            forall|j: int| 0 <= j < i ==> a@[j] == b@[j],
        decreases a.len() - i,
    {
        if a[i] != b[i] {
            return false;
        }
        i += 1;
    }
    proof {
        assert(a@ =~= b@);
    }
    true
}

/// A copy of the bytes.
pub fn copy_bytes(src: &[u8]) -> (copy: Vec<u8>)
    ensures
        copy@ == src@,
{
    let mut copy: Vec<u8> = Vec::new();
    append_bytes(&mut copy, src);
    proof {
        assert(Seq::<u8>::empty() + src@ =~= src@);
    }
    copy
}

/// The record without the field at the 1-based `column`.
pub fn drop_column(record: &Vec<Vec<u8>>, column: usize) -> (rest: Vec<Vec<u8>>)
    ensures
        fields_view(&rest) == without_column(fields_view(record), column as nat),
{
    let mut rest: Vec<Vec<u8>> = Vec::new();
    let mut i: usize = 0;
    let ghost all = fields_view(record);
    assert(fields_view(&rest) =~= without_column(all.take(0), column as nat));
    while i < record.len()
        invariant
            i <= record.len(),
            all == fields_view(record),
            fields_view(&rest) == without_column(all.take(i as int), column as nat),
        decreases record.len() - i,
    {
        let ghost before = fields_view(&rest);
        if i + 1 != column {
            rest.push(copy_bytes(record[i].as_slice()));
            proof {
                assert(fields_view(&rest) =~= before.push(all[i as int]));
                assert(before.push(all[i as int]) =~= without_column(
                    all.take(i + 1),
                    column as nat,
                ));
            }
        } else {
            proof {
                assert(before =~= without_column(all.take(i + 1), column as nat));
            }
        }
        i += 1;
    }
    proof {
        assert(all.take(all.len() as int) =~= all);
    }
    rest
}

} // verus!
