//! The seeded row hash shared by the scatter operator and the hash join:
//! equal key values under one seed give equal hashes.

use vstd::prelude::*;
use crate::datavalues::{DataBlock, DataValue, Scalar};

verus! {

/// The multiplier of the hash's mixing step.
pub const HASH_PRIME: u64 = 0x0000_0100_0000_01b3;

/// One mixing step: fold the word `x` into the running hash `h`.
pub open spec fn mix(h: u64, x: u64) -> u64 {
    (h ^ x).wrapping_mul(HASH_PRIME)
}

/// The running hash after folding in the bytes of `b` in order.
pub open spec fn hash_bytes(h: u64, b: Seq<u8>) -> u64
    decreases b.len(),
{
    if b.len() == 0 {
        h
    } else {
        mix(hash_bytes(h, b.drop_last()), b.last() as u64)
    }
}

/// The running hash after folding in one scalar. A leading tag keeps the
/// three kinds of scalar apart; a byte string is closed by its length.
pub open spec fn hash_scalar(h: u64, v: Scalar) -> u64 {
    match v {
        Scalar::Null => mix(h, 0),
        Scalar::UInt(x) => mix(mix(h, 1), x),
        Scalar::Binary(b) => mix(hash_bytes(mix(h, 2), b), b.len() as u64),
    }
}

/// The running hash after folding in the scalars of `key` in order.
pub open spec fn hash_scalars(h: u64, key: Seq<Scalar>) -> u64
    decreases key.len(),
{
    if key.len() == 0 {
        h
    } else {
        hash_scalar(hash_scalars(h, key.drop_last()), key.last())
    }
}

/// The closing step, which lets the high bits reach the low ones.
pub open spec fn avalanche(h: u64) -> u64 {
    h ^ (h >> 32)
}

/// The hash of a key under a seed.
pub open spec fn row_hash(seed: u64, key: Seq<Scalar>) -> u64 {
    avalanche(hash_scalars(seed, key))
}

/// The key of row `r`: its cells at the key columns, in the order of `keys`.
pub open spec fn key_of_row(block: DataBlock, keys: Seq<usize>, r: int) -> Seq<Scalar> {
    Seq::new(keys.len(), |k: int| block.cell(r, keys[k] as int))
}

/// Exec form of `mix`.
pub fn mix_word(h: u64, x: u64) -> (r: u64)
    ensures
        r == mix(h, x),
{
    (h ^ x).wrapping_mul(HASH_PRIME)
}

/// Folds one cell into the running hash.
pub fn hash_value(h: u64, v: &DataValue) -> (r: u64)
    ensures
        r == hash_scalar(h, v@),
{
    match v {
        DataValue::Null => mix_word(h, 0),
        DataValue::UInt(x) => mix_word(mix_word(h, 1), *x),
        DataValue::Binary(b) => {
            let mut acc: u64 = mix_word(h, 2);
            let mut i: usize = 0;
            while i < b.len()
                invariant
                    i <= b.len(),
                    acc == hash_bytes(mix(h, 2), b@.subrange(0, i as int)),
                decreases b.len() - i,
            {
                assert(b@.subrange(0, i + 1).drop_last() =~= b@.subrange(0, i as int));
                acc = mix_word(acc, b[i] as u64);
                i += 1;
            }
            assert(b@.subrange(0, b.len() as int) =~= b@);
            mix_word(acc, b.len() as u64)
        },
    }
}

/// The hash of every row's key under `seed`.
pub fn hash_rows(block: &DataBlock, keys: &Vec<usize>, seed: u64) -> (hashes: Vec<u64>)
    requires
        block.well_formed(),
        forall|k: int| 0 <= k < keys@.len() ==> (#[trigger] keys@[k]) < block.columns@.len(),
    ensures
        hashes@.len() == block.num_rows,
        forall|r: int| 0 <= r < block.num_rows ==> (#[trigger] hashes@[r]) == row_hash(seed, key_of_row(*block, keys@, r)),
{
    let mut hashes: Vec<u64> = Vec::with_capacity(block.num_rows());
    let mut r: usize = 0;
    while r < block.num_rows()
        invariant
            r <= block.num_rows,
            block.well_formed(),
            forall|k: int| 0 <= k < keys@.len() ==> (#[trigger] keys@[k]) < block.columns@.len(),
            hashes@.len() == r,
            forall|q: int| 0 <= q < r ==> (#[trigger] hashes@[q]) == row_hash(seed, key_of_row(*block, keys@, q)),
        decreases block.num_rows - r,
    {
        let mut acc: u64 = seed;
        let mut k: usize = 0;
        while k < keys.len()
            invariant
                k <= keys.len(),
                r < block.num_rows,
                block.well_formed(),
                forall|j: int| 0 <= j < keys@.len() ==> (#[trigger] keys@[j]) < block.columns@.len(),
                acc == hash_scalars(seed, key_of_row(*block, keys@, r as int).subrange(0, k as int)),
            decreases keys.len() - k,
        {
            let column = block.get_by_offset(keys[k]);
            assert(block.columns@[keys@[k as int] as int].well_formed());
            assert(key_of_row(*block, keys@, r as int).subrange(0, k + 1).drop_last() =~= key_of_row(
                *block,
                keys@,
                r as int,
            ).subrange(0, k as int));
            acc = hash_value(acc, &column.values[r]);
            k += 1;
        }
        assert(key_of_row(*block, keys@, r as int).subrange(0, keys@.len() as int) =~= key_of_row(*block, keys@, r as int));
        hashes.push(acc ^ (acc >> 32));
        r += 1;
    }
    hashes
}

} // verus!
