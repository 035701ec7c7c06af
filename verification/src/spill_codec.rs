//! The byte form in which a partition's build rows are handed to storage
//! and taken back: sixteen bytes per row, the row's number and then its key,
//! each in eight bytes, least significant first.

use vstd::prelude::*;
use crate::byte_layout::{
    le_bytes, le_value, lemma_le_bytes_len, lemma_le_round_trip, lemma_le_value_bound, lemma_pow256_values,
    push_le_bytes, read_le_value,
};
use crate::error::ErrorCode;
use crate::join_table::BuildRow;

verus! {

/// The bytes of one row.
pub open spec fn encoded_row(row: BuildRow) -> Seq<u8> {
    le_bytes(row.id as nat, 8) + le_bytes(row.key as nat, 8)
}

/// The bytes of a list of rows: the rows' bytes, one row after another.
pub open spec fn encoded_rows(rows: Seq<BuildRow>) -> Seq<u8>
    decreases rows.len(),
{
    if rows.len() == 0 {
        Seq::empty()
    } else {
        encoded_rows(rows.drop_last()) + encoded_row(rows.last())
    }
}

/// The number held in row `i` of `bytes` at the byte offset `at`.
pub open spec fn word_at(bytes: Seq<u8>, i: int, at: int) -> nat {
    le_value(bytes.subrange(16 * i + at, 16 * i + at + 8))
}

/// Whether `bytes` are the bytes of rows: whole rows, whose numbers can be
/// counted.
pub open spec fn decodable(bytes: Seq<u8>) -> bool {
    &&& bytes.len() % 16 == 0
    &&& forall|i: int| 0 <= i < bytes.len() / 16 ==> #[trigger] word_at(bytes, i, 0) <= usize::MAX
}

/// The rows that `bytes` hold.
pub open spec fn decoded_rows(bytes: Seq<u8>) -> Seq<BuildRow> {
    Seq::new(
        (bytes.len() / 16) as nat,
        |i: int| BuildRow { id: word_at(bytes, i, 0) as usize, key: word_at(bytes, i, 8) as u64 },
    )
}

/// Sixteen bytes per row.
pub proof fn lemma_encoded_len(rows: Seq<BuildRow>)
    ensures
        encoded_rows(rows).len() == 16 * rows.len(),
    decreases rows.len(),
{
    if rows.len() > 0 {
        lemma_encoded_len(rows.drop_last());
        lemma_le_bytes_len(rows.last().id as nat, 8);
        lemma_le_bytes_len(rows.last().key as nat, 8);
    }
}

/// What was handed to storage comes back as it was: the bytes of a list of
/// rows can be decoded, and decode to the rows.
pub proof fn lemma_rows_round_trip(rows: Seq<BuildRow>)
    ensures
        decodable(encoded_rows(rows)),
        decoded_rows(encoded_rows(rows)) == rows,
    decreases rows.len(),
{
    let bytes = encoded_rows(rows);
    lemma_encoded_len(rows);
    if rows.len() > 0 {
        let front = rows.drop_last();
        let last = rows.last();
        let head = encoded_rows(front);
        lemma_rows_round_trip(front);
        lemma_encoded_len(front);
        lemma_le_bytes_len(last.id as nat, 8);
        lemma_le_bytes_len(last.key as nat, 8);
        lemma_pow256_values();
        lemma_le_round_trip(last.id as nat, 8);
        lemma_le_round_trip(last.key as nat, 8);
        let n = rows.len() as int;
        assert forall|i: int| 0 <= i < n implies word_at(bytes, i, 0) == rows[i].id && word_at(bytes, i, 8) == rows[i].key by {
            if i < n - 1 {
                assert(bytes.subrange(16 * i, 16 * i + 8) =~= head.subrange(16 * i, 16 * i + 8));
                assert(bytes.subrange(16 * i + 8, 16 * i + 16) =~= head.subrange(16 * i + 8, 16 * i + 16));
                assert(decoded_rows(head)[i] == front[i]);
                assert(word_at(head, i, 0) <= usize::MAX);
                lemma_le_value_bound(head.subrange(16 * i + 8, 16 * i + 16));
            } else {
                assert(bytes.subrange(16 * i, 16 * i + 8) =~= le_bytes(last.id as nat, 8));
                assert(bytes.subrange(16 * i + 8, 16 * i + 16) =~= le_bytes(last.key as nat, 8));
            }
        }
        assert(decoded_rows(bytes) =~= rows);
    } else {
        assert(decoded_rows(bytes) =~= rows);
    }
}

/// The bytes of a list of rows.
pub fn encode_rows(rows: &Vec<BuildRow>) -> (bytes: Vec<u8>)
    ensures
        bytes@ == encoded_rows(rows@),
{
    let mut bytes: Vec<u8> = Vec::new();
    let mut i: usize = 0;
    assert(bytes@ =~= encoded_rows(rows@.subrange(0, 0)));
    while i < rows.len()
        invariant
            i <= rows@.len(),
            bytes@ == encoded_rows(rows@.subrange(0, i as int)),
        decreases rows@.len() - i,
    {
        let ghost before = bytes@;
        assert(rows@.subrange(0, i + 1).drop_last() =~= rows@.subrange(0, i as int));
        push_le_bytes(&mut bytes, rows[i].id as u64, 8);
        push_le_bytes(&mut bytes, rows[i].key, 8);
        assert(bytes@ =~= before + encoded_row(rows@[i as int]));
        i += 1;
    }
    assert(rows@.subrange(0, rows@.len() as int) =~= rows@);
    bytes
}

/// The rows that `bytes` hold. Bytes that are not whole rows, or hold a
/// row number that cannot be counted, did not come back from storage as
/// they were handed over.
pub fn decode_rows(bytes: &Vec<u8>) -> (r: Result<Vec<BuildRow>, ErrorCode>)
    ensures
        r.is_ok() <==> decodable(bytes@),
        r matches Err(e) ==> e == ErrorCode::IOError,
        r matches Ok(rows) ==> rows@ == decoded_rows(bytes@),
{
    let len = bytes.len();
    if len % 16 != 0 {
        return Err(ErrorCode::IOError);
    }
    let n = len / 16;
    let mut rows: Vec<BuildRow> = Vec::with_capacity(n);
    let mut i: usize = 0;
    while i < n
        invariant
            i <= n,
            len == bytes@.len(),
            len == 16 * n,
            rows@.len() == i,
            forall|j: int| 0 <= j < i ==> word_at(bytes@, j, 0) <= usize::MAX,
            forall|j: int| 0 <= j < i ==> (#[trigger] rows@[j]) == (BuildRow { id: word_at(bytes@, j, 0) as usize, key: word_at(bytes@, j, 8) as u64 }),
        decreases n - i,
    {
        let id = read_le_value(bytes, 16 * i, 8);
        let key = read_le_value(bytes, 16 * i + 8, 8);
        assert(id == word_at(bytes@, i as int, 0));
        assert(key == word_at(bytes@, i as int, 8));
        if id > usize::MAX as u64 {
            return Err(ErrorCode::IOError);
        }
        rows.push(BuildRow { id: id as usize, key });
        i += 1;
    }
    assert(rows@ =~= decoded_rows(bytes@));
    Ok(rows)
}

} // verus!
