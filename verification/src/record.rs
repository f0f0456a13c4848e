//! Records as rows of byte fields, and what the partition reads from a
//! record and writes of it.

use vstd::prelude::*;
use vstd::slice::{slice_subrange, slice_to_vec};

verus! {

/// A record as mathematics: its fields in order.
pub type Row = Seq<Seq<u8>>;

/// The fields of a record.
pub open spec fn row_of(record: Seq<Vec<u8>>) -> Row {
    record.map_values(|field: Vec<u8>| field@)
}

/// The key that a column value stands for: its first `len` bytes where a
/// prefix length below its own length is set, else all of it.
pub open spec fn truncated(column: Seq<u8>, prefix_length: Option<usize>) -> Seq<u8> {
    match prefix_length {
        Some(len) => if len < column.len() {
            column.subrange(0, len as int)
        } else {
            column
        },
        None => column,
    }
}

/// The record as it is written: without the key column where columns are
/// dropped and the record has that column, else as it is.
pub open spec fn projected(row: Row, key_col: int, drop: bool) -> Row {
    if drop && 0 <= key_col < row.len() {
        row.remove(key_col)
    } else {
        row
    }
}

/// A column value longer than the prefix length has its first bytes as its
/// key, exactly as many as the prefix length; any other value is its own
/// key, as every value is where no prefix length is set.
pub proof fn lemma_truncated(column: Seq<u8>, len: usize)
    ensures
        len < column.len() ==> truncated(column, Some(len)) == column.take(len as int)
            && truncated(column, Some(len)).len() == len,
        len >= column.len() ==> truncated(column, Some(len)) == column,
        truncated(column, None) == column,
{
}

/// Where the key column is dropped, what is written of a record that has
/// the column is the record without that field, the other fields in their
/// order. Where it is not dropped, the record is written as it is.
pub proof fn lemma_projected(row: Row, key_col: int)
    requires
        0 <= key_col < row.len(),
    ensures
        projected(row, key_col, true).len() == row.len() - 1,
        forall|j: int| 0 <= j < key_col ==> projected(row, key_col, true)[j] == row[j],
        forall|j: int|
            key_col <= j < row.len() - 1 ==> projected(row, key_col, true)[j] == row[j + 1],
        projected(row, key_col, false) == row,
{
}

/// The key of a record, from the value of its key column.
pub fn partition_key(column: &[u8], prefix_length: Option<usize>) -> (key: &[u8])
    ensures
        key@ == truncated(column@, prefix_length),
{
    match prefix_length {
        Some(len) => {
            if len < column.len() {
                slice_subrange(column, 0, len)
            } else {
                column
            }
        },
        None => column,
    }
}

/// The record as it is written.
pub fn project(record: &Vec<Vec<u8>>, key_col: usize, drop: bool) -> (out: Vec<Vec<u8>>)
    ensures
        row_of(out@) == projected(row_of(record@), key_col as int, drop),
{
    let mut out: Vec<Vec<u8>> = Vec::new();
    let mut i: usize = 0;
    while i < record.len()
        invariant
            i <= record.len(),
            row_of(out@) == projected(row_of(record@.take(i as int)), key_col as int, drop),
        decreases record.len() - i,
    {
        let ghost before = row_of(out@);
        if !(drop && i == key_col) {
            out.push(slice_to_vec(record[i].as_slice()));
        }
        proof {
            let taken = record@.take(i as int);
            let next = record@.take(i + 1);
            assert(next =~= taken.push(record@[i as int]));
            assert(row_of(next) =~= row_of(taken).push(record@[i as int]@));
            if drop && i == key_col {
                assert(row_of(out@) =~= row_of(next).remove(key_col as int));
            } else {
                assert(row_of(out@) =~= before.push(record@[i as int]@));
                if drop && key_col < i {
                    assert(row_of(next).remove(key_col as int) =~= row_of(taken).remove(
                        key_col as int,
                    ).push(record@[i as int]@));
                }
            }
        }
        i = i + 1;
    }
    assert(record@.take(i as int) =~= record@);
    out
}

} // verus!
