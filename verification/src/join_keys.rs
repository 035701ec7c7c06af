//! Join keys of any type: the rows of both sides are numbered so that two
//! rows have the same number exactly where their keys match. A key with a
//! null in it matches nothing, not even itself.

use vstd::prelude::*;
use crate::datavalues::{DataBlock, Scalar};
use crate::error::ErrorCode;
use crate::hashing::{hash_rows, key_of_row, row_hash};
use crate::join_spec::same_pattern;
use crate::join_table::{keys_of, BuildRow, JoinHashTable};
use crate::selection::{lemma_positions, positions};

verus! {

/// The key of a row as a join sees it: the values of its key columns, or,
/// where one of them is null, a key of its own that no other row has.
pub enum JoinKey {
    Missing { build_side: bool, row: int },
    Present(Seq<Scalar>),
}

/// Whether a key holds a null.
pub open spec fn holds_null(key: Seq<Scalar>) -> bool {
    exists|k: int| 0 <= k < key.len() && (#[trigger] key[k]) == Scalar::Null
}

/// The key of row `r`.
pub open spec fn row_key(block: DataBlock, offsets: Seq<usize>, r: int, build_side: bool) -> JoinKey {
    let key = key_of_row(block, offsets, r);
    if holds_null(key) {
        JoinKey::Missing { build_side, row: r }
    } else {
        JoinKey::Present(key)
    }
}

/// The keys of all rows of one side.
pub open spec fn side_keys(block: DataBlock, offsets: Seq<usize>, build_side: bool) -> Seq<JoinKey> {
    Seq::new(block.num_rows as nat, |r: int| row_key(block, offsets, r, build_side))
}

/// Whether the key columns of both sides exist and are as many on the one
/// side as on the other.
pub open spec fn offsets_usable(build: DataBlock, build_offsets: Seq<usize>, probe: DataBlock, probe_offsets: Seq<usize>) -> bool {
    &&& build_offsets.len() == probe_offsets.len()
    &&& forall|k: int| 0 <= k < build_offsets.len() ==> (#[trigger] build_offsets[k]) < build.columns@.len()
    &&& forall|k: int| 0 <= k < probe_offsets.len() ==> (#[trigger] probe_offsets[k]) < probe.columns@.len()
}

/// Whether every offset names a column of `block`.
pub fn offsets_in_range(block: &DataBlock, offsets: &Vec<usize>) -> (b: bool)
    ensures
        b == (forall|k: int| 0 <= k < offsets@.len() ==> (#[trigger] offsets@[k]) < block.columns@.len()),
{
    let mut k: usize = 0;
    while k < offsets.len()
        invariant
            k <= offsets@.len(),
            forall|q: int| 0 <= q < k ==> (#[trigger] offsets@[q]) < block.columns@.len(),
        decreases offsets@.len() - k,
    {
        if offsets[k] >= block.columns.len() {
            return false;
        }
        k += 1;
    }
    true
}

/// Whether the key of row `r` holds a null.
pub fn key_holds_null(block: &DataBlock, offsets: &Vec<usize>, r: usize) -> (b: bool)
    requires
        block.well_formed(),
        r < block.num_rows,
        forall|k: int| 0 <= k < offsets@.len() ==> (#[trigger] offsets@[k]) < block.columns@.len(),
    ensures
        b == holds_null(key_of_row(*block, offsets@, r as int)),
{
    let ghost key = key_of_row(*block, offsets@, r as int);
    let mut k: usize = 0;
    while k < offsets.len()
        invariant
            k <= offsets@.len(),
            block.well_formed(),
            r < block.num_rows,
            key == key_of_row(*block, offsets@, r as int),
            forall|q: int| 0 <= q < offsets@.len() ==> (#[trigger] offsets@[q]) < block.columns@.len(),
            forall|q: int| 0 <= q < k ==> (#[trigger] key[q]) != Scalar::Null,
        decreases offsets@.len() - k,
    {
        let column = block.get_by_offset(offsets[k]);
        assert(block.columns@[offsets@[k as int] as int].well_formed());
        if column.values[r].is_null() {
            assert(key[k as int] == Scalar::Null);
            return true;
        }
        k += 1;
    }
    false
}

/// Whether row `ra` of `a` and row `rb` of `b` have the same values in
/// their key columns.
pub fn keys_equal(a: &DataBlock, a_offsets: &Vec<usize>, ra: usize, b: &DataBlock, b_offsets: &Vec<usize>, rb: usize) -> (same: bool)
    requires
        a.well_formed(),
        b.well_formed(),
        ra < a.num_rows,
        rb < b.num_rows,
        a_offsets@.len() == b_offsets@.len(),
        forall|k: int| 0 <= k < a_offsets@.len() ==> (#[trigger] a_offsets@[k]) < a.columns@.len(),
        forall|k: int| 0 <= k < b_offsets@.len() ==> (#[trigger] b_offsets@[k]) < b.columns@.len(),
    ensures
        same == (key_of_row(*a, a_offsets@, ra as int) == key_of_row(*b, b_offsets@, rb as int)),
{
    let ghost ka = key_of_row(*a, a_offsets@, ra as int);
    let ghost kb = key_of_row(*b, b_offsets@, rb as int);
    let mut k: usize = 0;
    while k < a_offsets.len()
        invariant
            k <= a_offsets@.len(),
            a.well_formed(),
            b.well_formed(),
            ra < a.num_rows,
            rb < b.num_rows,
            a_offsets@.len() == b_offsets@.len(),
            ka == key_of_row(*a, a_offsets@, ra as int),
            kb == key_of_row(*b, b_offsets@, rb as int),
            forall|q: int| 0 <= q < a_offsets@.len() ==> (#[trigger] a_offsets@[q]) < a.columns@.len(),
            forall|q: int| 0 <= q < b_offsets@.len() ==> (#[trigger] b_offsets@[q]) < b.columns@.len(),
            forall|q: int| 0 <= q < k ==> ka[q] == kb[q],
        decreases a_offsets@.len() - k,
    {
        let ca = a.get_by_offset(a_offsets[k]);
        let cb = b.get_by_offset(b_offsets[k]);
        assert(a.columns@[a_offsets@[k as int] as int].well_formed());
        assert(b.columns@[b_offsets@[k as int] as int].well_formed());
        if !ca.values[ra].same(&cb.values[rb]) {
            assert(ka[k as int] != kb[k as int]);
            return false;
        }
        k += 1;
    }
    assert(ka =~= kb);
    true
}

/// Whether `found` is the first build row whose key is `key`; `None`
/// stands for no such row.
pub open spec fn is_first_match(keys: Seq<JoinKey>, key: JoinKey, found: Option<usize>) -> bool {
    match found {
        Some(c) => c < keys.len() && keys[c as int] == key && forall|i: int| 0 <= i < c ==> keys[i] != key,
        None => forall|i: int| 0 <= i < keys.len() ==> keys[i] != key,
    }
}

/// The first build row whose key matches the key of row `r` of `block`.
/// The table holds the build rows under the hashes of their keys.
fn first_match(
    build: &DataBlock,
    build_offsets: &Vec<usize>,
    table: &JoinHashTable,
    block: &DataBlock,
    offsets: &Vec<usize>,
    r: usize,
    hash: u64,
    build_side: bool,
) -> (found: Option<usize>)
    requires
        build.well_formed(),
        block.well_formed(),
        r < block.num_rows,
        build_offsets@.len() == offsets@.len(),
        forall|k: int| 0 <= k < build_offsets@.len() ==> (#[trigger] build_offsets@[k]) < build.columns@.len(),
        forall|k: int| 0 <= k < offsets@.len() ==> (#[trigger] offsets@[k]) < block.columns@.len(),
        table.well_formed(),
        table.rows@.len() == build.num_rows,
        forall|i: int| 0 <= i < build.num_rows ==> (#[trigger] table.rows@[i]).key == row_hash(0, key_of_row(*build, build_offsets@, i)),
        hash == row_hash(0, key_of_row(*block, offsets@, r as int)),
        build_side ==> *block == *build && offsets@ == build_offsets@,
    ensures
        is_first_match(side_keys(*build, build_offsets@, true), row_key(*block, offsets@, r as int, build_side), found),
{
    let ghost keys = side_keys(*build, build_offsets@, true);
    let ghost key = row_key(*block, offsets@, r as int, build_side);
    if key_holds_null(block, offsets, r) {
        if build_side {
            return Some(r);
        }
        return None;
    }
    let candidates = table.lookup(hash);
    let rows = build.num_rows();
    proof {
        lemma_positions(keys_of(table.rows@), hash);
    }
    let mut x: usize = 0;
    while x < candidates.len()
        invariant
            x <= candidates@.len(),
            build.well_formed(),
            block.well_formed(),
            r < block.num_rows,
            build_offsets@.len() == offsets@.len(),
            forall|k: int| 0 <= k < build_offsets@.len() ==> (#[trigger] build_offsets@[k]) < build.columns@.len(),
            forall|k: int| 0 <= k < offsets@.len() ==> (#[trigger] offsets@[k]) < block.columns@.len(),
            table.rows@.len() == build.num_rows,
            candidates@ == positions(keys_of(table.rows@), hash),
            forall|i: int| 0 <= i < build.num_rows ==> (#[trigger] table.rows@[i]).key == row_hash(0, key_of_row(*build, build_offsets@, i)),
            hash == row_hash(0, key_of_row(*block, offsets@, r as int)),
            forall|q: int| 0 <= q < candidates@.len() ==> (#[trigger] candidates@[q]) < build.num_rows,
            keys == side_keys(*build, build_offsets@, true),
            key == row_key(*block, offsets@, r as int, build_side),
            !holds_null(key_of_row(*block, offsets@, r as int)),
            forall|q: int| 0 <= q < x ==> keys[(#[trigger] candidates@[q]) as int] != key,
        decreases candidates@.len() - x,
    {
        let c = candidates[x];
        if keys_equal(build, build_offsets, c, block, offsets, r) {
            proof {
                lemma_positions(keys_of(table.rows@), hash);
                assert(keys[c as int] == key);
                assert forall|i: int| 0 <= i < c implies keys[i] != key by {
                    if keys[i] == key {
                        assert(key_of_row(*build, build_offsets@, i) == key_of_row(*block, offsets@, r as int));
                        assert(table.rows@[i].key == hash);
                        assert(keys_of(table.rows@)[i] == hash);
                        assert(candidates@.contains(i as usize));
                        let q = choose|q: int| 0 <= q < candidates@.len() && candidates@[q] == i as usize;
                        if q < x {
                            assert(keys[candidates@[q] as int] != key);
                        } else {
                            assert(candidates@[q] >= candidates@[x as int]) by {
                                if q > x {
                                    assert(candidates@[x as int] < candidates@[q]);
                                }
                            }
                        }
                    }
                }
            }
            return Some(c);
        }
        x += 1;
    }
    proof {
        lemma_positions(keys_of(table.rows@), hash);
        assert forall|i: int| 0 <= i < keys.len() implies keys[i] != key by {
            if keys[i] == key {
                assert(key_of_row(*build, build_offsets@, i) == key_of_row(*block, offsets@, r as int));
                assert(table.rows@[i].key == hash);
                assert(keys_of(table.rows@)[i] == hash);
                assert(candidates@.contains(i as usize));
                let q = choose|q: int| 0 <= q < candidates@.len() && candidates@[q] == i as usize;
                assert(keys[candidates@[q] as int] != key);
            }
        }
    }
    None
}

/// Numbers the rows of both sides so that a build row and a probe row have
/// the same number exactly where their keys match: a build row gets the
/// number of the first build row with its key, a probe row the number of
/// the first build row with its key, or a number of its own where there is
/// none.
pub fn number_keys(build: &DataBlock, build_offsets: &Vec<usize>, probe: &DataBlock, probe_offsets: &Vec<usize>) -> (r: Result<(Vec<u64>, Vec<u64>), ErrorCode>)
    requires
        build.well_formed(),
        probe.well_formed(),
    ensures
        !offsets_usable(*build, build_offsets@, *probe, probe_offsets@) ==> r.is_err() && r.unwrap_err() == ErrorCode::ConfigurationError,
        offsets_usable(*build, build_offsets@, *probe, probe_offsets@) ==> (r.is_ok() <==> build.num_rows + probe.num_rows <= u64::MAX),
        offsets_usable(*build, build_offsets@, *probe, probe_offsets@) && r.is_err() ==> r.unwrap_err() == ErrorCode::ResourceExhausted,
        r matches Ok(numbers) ==> same_pattern(
            numbers.0@,
            numbers.1@,
            side_keys(*build, build_offsets@, true),
            side_keys(*probe, probe_offsets@, false),
        ),
{
    if build_offsets.len() != probe_offsets.len() || !offsets_in_range(build, build_offsets) || !offsets_in_range(probe, probe_offsets) {
        return Err(ErrorCode::ConfigurationError);
    }
    let nb = build.num_rows();
    let np = probe.num_rows();
    if nb as u128 + np as u128 > u64::MAX as u128 {
        return Err(ErrorCode::ResourceExhausted);
    }
    let build_hashes = hash_rows(build, build_offsets, 0);
    let probe_hashes = hash_rows(probe, probe_offsets, 0);
    let mut rows: Vec<BuildRow> = Vec::with_capacity(nb);
    let mut i: usize = 0;
    while i < nb
        invariant
            i <= nb,
            nb == build.num_rows,
            build_hashes@.len() == nb,
            rows@.len() == i,
            forall|q: int| 0 <= q < i ==> (#[trigger] rows@[q]).key == build_hashes@[q],
        decreases nb - i,
    {
        rows.push(BuildRow { id: i, key: build_hashes[i] });
        i += 1;
    }
    let table = JoinHashTable::build(rows, 0, nb);
    let ghost build_keys = side_keys(*build, build_offsets@, true);
    let ghost probe_keys = side_keys(*probe, probe_offsets@, false);
    let mut build_numbers: Vec<u64> = Vec::with_capacity(nb);
    let mut i: usize = 0;
    while i < nb
        invariant
            i <= nb,
            nb == build.num_rows,
            nb + np <= u64::MAX,
            build.well_formed(),
            build_offsets@.len() == probe_offsets@.len(),
            forall|k: int| 0 <= k < build_offsets@.len() ==> (#[trigger] build_offsets@[k]) < build.columns@.len(),
            table.well_formed(),
            table.rows@.len() == nb,
            build_hashes@.len() == nb,
            forall|q: int| 0 <= q < nb ==> (#[trigger] build_hashes@[q]) == row_hash(0, key_of_row(*build, build_offsets@, q)),
            forall|q: int| 0 <= q < nb ==> (#[trigger] table.rows@[q]).key == build_hashes@[q],
            build_keys == side_keys(*build, build_offsets@, true),
            build_numbers@.len() == i,
            forall|q: int| 0 <= q < i ==> is_first_match(build_keys, build_keys[q], Some((#[trigger] build_numbers@[q]) as usize)) && build_numbers@[q] < nb,
        decreases nb - i,
    {
        let found = first_match(build, build_offsets, &table, build, build_offsets, i, build_hashes[i], true);
        let number = match found {
            Some(c) => c,
            None => {
                assert(build_keys[i as int] == row_key(*build, build_offsets@, i as int, true));
                i
            },
        };
        assert(found.is_some()) by {
            assert(build_keys[i as int] == row_key(*build, build_offsets@, i as int, true));
        }
        build_numbers.push(number as u64);
        i += 1;
    }
    let mut probe_numbers: Vec<u64> = Vec::with_capacity(np);
    let mut j: usize = 0;
    while j < np
        invariant
            j <= np,
            nb == build.num_rows,
            np == probe.num_rows,
            nb + np <= u64::MAX,
            build.well_formed(),
            probe.well_formed(),
            build_offsets@.len() == probe_offsets@.len(),
            forall|k: int| 0 <= k < build_offsets@.len() ==> (#[trigger] build_offsets@[k]) < build.columns@.len(),
            forall|k: int| 0 <= k < probe_offsets@.len() ==> (#[trigger] probe_offsets@[k]) < probe.columns@.len(),
            table.well_formed(),
            table.rows@.len() == nb,
            build_hashes@.len() == nb,
            probe_hashes@.len() == np,
            forall|q: int| 0 <= q < nb ==> (#[trigger] build_hashes@[q]) == row_hash(0, key_of_row(*build, build_offsets@, q)),
            forall|q: int| 0 <= q < np ==> (#[trigger] probe_hashes@[q]) == row_hash(0, key_of_row(*probe, probe_offsets@, q)),
            forall|q: int| 0 <= q < nb ==> (#[trigger] table.rows@[q]).key == build_hashes@[q],
            build_keys == side_keys(*build, build_offsets@, true),
            probe_keys == side_keys(*probe, probe_offsets@, false),
            probe_numbers@.len() == j,
            forall|q: int| 0 <= q < j ==> (if (#[trigger] probe_numbers@[q]) < nb {
                is_first_match(build_keys, probe_keys[q], Some(probe_numbers@[q] as usize))
            } else {
                is_first_match(build_keys, probe_keys[q], None)
            }),
        decreases np - j,
    {
        let found = first_match(build, build_offsets, &table, probe, probe_offsets, j, probe_hashes[j], false);
        assert(probe_keys[j as int] == row_key(*probe, probe_offsets@, j as int, false));
        let number: u64 = match found {
            Some(c) => c as u64,
            None => nb as u64 + j as u64,
        };
        probe_numbers.push(number);
        j += 1;
    }
    proof {
        assert forall|a: int, b: int| 0 <= a < nb && 0 <= b < np implies (build_numbers@[a] == probe_numbers@[b]) == (build_keys[a] == probe_keys[b]) by {
            let fa = build_numbers@[a];
            let fb = probe_numbers@[b];
            assert(is_first_match(build_keys, build_keys[a], Some(fa as usize)));
            if fb < nb {
                assert(is_first_match(build_keys, probe_keys[b], Some(fb as usize)));
                if build_keys[a] == probe_keys[b] {
                    if fa < fb {
                        assert(build_keys[fa as int] != probe_keys[b]);
                    } else if fb < fa {
                        assert(build_keys[fb as int] != build_keys[a]);
                    }
                }
            } else {
                assert(is_first_match(build_keys, probe_keys[b], None));
            }
        }
    }
    Ok((build_numbers, probe_numbers))
}

} // verus!
