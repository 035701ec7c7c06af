//! Keys built from columns can be taken apart again: what the hash methods
//! build is what they read back.

use vstd::prelude::*;
use vstd::arithmetic::div_mod::{lemma_div_denominator, lemma_fundamental_div_mod_converse};
use crate::byte_layout::{
    field_at, le_bytes, lemma_le_bytes_len, lemma_le_round_trip, lemma_pow256_add,
    lemma_pow256_values, pack, pow256, span,
};
use crate::datavalues::{DataColumn, DataType, Scalar};
use crate::selection::{lemma_positions, lemma_positions_push, positions};
use crate::hash_method::{
    cell_value, column_widths, cursor_after, decoded_cell, decoded_field, encoded_cell, laid_out_values,
    laid_out_widths, layout, packed_key, serialized_key, unpacked_field,
};

verus! {

/// A field can be read back from the packed fields at the offset where the
/// fields before it end, when every field fits its width.
pub proof fn lemma_unpack(vals: Seq<nat>, widths: Seq<nat>, f: int)
    requires
        vals.len() == widths.len(),
        0 <= f < vals.len(),
        forall|i: int| 0 <= i < vals.len() ==> vals[i] < pow256(#[trigger] widths[i]),
    ensures
        field_at(pack(vals, widths), span(widths.subrange(0, f)), widths[f]) == vals[f],
    decreases f,
{
    let first = pow256(widths[0]);
    let rest = pack(vals.drop_first(), widths.drop_first());
    let all = pack(vals, widths);
    lemma_pow256_add(widths[0], 0);
    assert(vals[0] < pow256(widths[0]));
    assert(all == rest * first + vals[0]) by (nonlinear_arith)
        requires
            all == vals[0] + first * rest,
    ;
    lemma_fundamental_div_mod_converse(all as int, first as int, rest as int, vals[0] as int);
    assert(all as int / first as int == rest);
    assert(all as int % first as int == vals[0]);
    if f == 0 {
        assert(widths.subrange(0, 0) =~= Seq::<nat>::empty());
        assert(span(widths.subrange(0, 0)) == 0);
        assert(pow256(0) == 1);
        assert(all / 1 == all);
    } else {
        let v = vals.drop_first();
        let w = widths.drop_first();
        assert forall|i: int| 0 <= i < v.len() implies v[i] < pow256(#[trigger] w[i]) by {
            assert(vals[i + 1] < pow256(widths[i + 1]));
        }
        lemma_unpack(v, w, f - 1);
        let before = widths.subrange(0, f);
        assert(before.drop_first() =~= w.subrange(0, f - 1));
        let inner = span(w.subrange(0, f - 1));
        assert(span(before) == widths[0] + inner);
        lemma_pow256_add(widths[0], inner);
        lemma_pow256_add(inner, 0);
        lemma_div_denominator(all as int, first as int, pow256(inner) as int);
        assert(first * pow256(inner) == pow256(widths[0] + inner));
        assert(all as int / (first * pow256(inner)) as int == (all as int / first as int) / (pow256(inner) as int));
        assert(all / pow256(span(before)) == rest / pow256(inner));
        assert(w[f - 1] == widths[f]);
        assert(v[f - 1] == vals[f]);
        assert(field_at(rest, inner, w[f - 1]) == v[f - 1]);
    }
}

/// Whether the columns are laid out in the order in which they are given.
pub open spec fn laid_out_in_order(cols: Seq<DataColumn>) -> bool {
    layout(column_widths(cols)) == Seq::new(cols.len(), |c: int| c as usize)
}

/// Whether no column is wider than a column before it.
pub open spec fn widest_first(cols: Seq<DataColumn>) -> bool {
    forall|i: int, j: int| 0 <= i < j < cols.len() ==> cols[i].data_type.width() >= cols[j].data_type.width()
}

/// A width that no position holds selects nothing.
proof fn lemma_absent_width(widths: Seq<usize>, w: usize)
    requires
        widths.len() <= usize::MAX,
        forall|i: int| 0 <= i < widths.len() ==> widths[i] != w,
    ensures
        positions(widths, w) == Seq::<usize>::empty(),
{
    lemma_positions(widths, w);
    let sel = positions(widths, w);
    if sel.len() > 0 {
        assert(widths[sel[0] as int] == w);
    }
    assert(sel =~= Seq::<usize>::empty());
}

/// Widths of 1, 2, 4 or 8 bytes that never grow are laid out in the order
/// given.
proof fn lemma_sorted_layout(widths: Seq<usize>)
    requires
        widths.len() <= usize::MAX,
        forall|i: int| 0 <= i < widths.len() ==> widths[i] == 1 || widths[i] == 2 || widths[i] == 4 || widths[i] == 8,
        forall|i: int, j: int| 0 <= i < j < widths.len() ==> widths[i] >= widths[j],
    ensures
        layout(widths) == Seq::new(widths.len(), |c: int| c as usize),
    decreases widths.len(),
{
    if widths.len() == 0 {
        assert(layout(widths) =~= Seq::new(widths.len(), |c: int| c as usize));
    } else {
        let front = widths.drop_last();
        let w = widths.last();
        let n = widths.len() as int;
        assert(front.push(w) =~= widths);
        assert forall|i: int| 0 <= i < front.len() implies front[i] == 1 || front[i] == 2 || front[i] == 4 || front[i] == 8 by {
            assert(front[i] == widths[i]);
        }
        assert forall|i: int, j: int| 0 <= i < j < front.len() implies front[i] >= front[j] by {
            assert(front[i] == widths[i] && front[j] == widths[j]);
        }
        lemma_sorted_layout(front);
        lemma_positions_push(front, w, 8);
        lemma_positions_push(front, w, 4);
        lemma_positions_push(front, w, 2);
        lemma_positions_push(front, w, 1);
        assert forall|i: int| 0 <= i < front.len() implies front[i] >= w by {
            assert(front[i] == widths[i]);
            assert(widths[n - 1] == w);
        }
        if w > 1 {
            lemma_absent_width(front, 1);
        }
        if w > 2 {
            lemma_absent_width(front, 2);
        }
        if w > 4 {
            lemma_absent_width(front, 4);
        }
        assert(layout(widths) =~= layout(front).push((n - 1) as usize));
        assert(layout(widths) =~= Seq::new(widths.len(), |c: int| c as usize));
    }
}

/// Integer columns given widest first are laid out in the order given.
pub proof fn lemma_widest_first_in_order(cols: Seq<DataColumn>)
    requires
        cols.len() <= usize::MAX,
        forall|c: int| 0 <= c < cols.len() ==> (#[trigger] cols[c]).data_type.spec_is_integer(),
        widest_first(cols),
    ensures
        laid_out_in_order(cols),
{
    let widths = column_widths(cols);
    assert forall|i: int| 0 <= i < widths.len() implies widths[i] == 1 || widths[i] == 2 || widths[i] == 4 || widths[i] == 8 by {
        assert(cols[i].data_type.spec_is_integer());
    }
    lemma_sorted_layout(widths);
}

/// Packed keys can be split back into their columns: for well-formed
/// integer columns without nulls that are laid out in the order given,
/// the field read back from a row's packed key at a column's position is
/// the column's value in that row.
pub proof fn lemma_fixed_keys_round_trip(cols: Seq<DataColumn>, r: int, f: int)
    requires
        cols.len() <= usize::MAX,
        0 <= f < cols.len(),
        laid_out_in_order(cols),
        forall|c: int| 0 <= c < cols.len() ==> {
            &&& (#[trigger] cols[c]).well_formed()
            &&& cols[c].data_type.spec_is_integer()
            &&& 0 <= r < cols[c].values@.len()
            &&& cols[c].values@[r]@ != Scalar::Null
        },
    ensures
        cols[f].values@[r]@ == Scalar::UInt(
            unpacked_field(Seq::new(cols.len(), |c: int| cols[c].data_type.width()), packed_key(cols, r), f) as u64,
        ),
{
    let vals = laid_out_values(cols, r);
    let widths = laid_out_widths(cols);
    let types = Seq::new(cols.len(), |c: int| cols[c].data_type.width());
    assert(widths =~= types);
    assert forall|i: int| 0 <= i < vals.len() implies vals[i] < pow256(#[trigger] widths[i]) by {
        assert(cols[i].well_formed());
        assert(cols[i].values@[r]@.fits(cols[i].data_type));
        lemma_pow256_values();
    }
    lemma_unpack(vals, widths, f);
    assert(cols[f].values@[r]@.fits(cols[f].data_type));
    assert(vals[f] == cell_value(cols[f], r));
}

/// The serialized key of a row, whatever follows it, reads back as the
/// row: decoding stops exactly behind the key, and every cell comes out as
/// it went in.
pub proof fn lemma_serialized_key_round_trip(cols: Seq<DataColumn>, types: Seq<DataType>, r: int, more: Seq<u8>)
    requires
        types.len() >= cols.len(),
        forall|c: int| 0 <= c < cols.len() ==> {
            &&& (#[trigger] cols[c]).well_formed()
            &&& types[c] == cols[c].data_type
            &&& 0 <= r < cols[c].values@.len()
            &&& cols[c].values@.len() <= usize::MAX
            &&& cols[c].values@[r]@ matches Scalar::Binary(b) ==> b.len() <= usize::MAX
        },
    ensures
        cursor_after(types, serialized_key(cols, r) + more, cols.len()) == Some(serialized_key(cols, r).len()),
        forall|f: int| 0 <= f < cols.len() ==> decoded_field(types, serialized_key(cols, r) + more, f as nat) == Some((#[trigger] cols[f]).values@[r]@),
    decreases cols.len(),
{
    if cols.len() > 0 {
        let n = cols.len() as int;
        let front = cols.drop_last();
        let last = cols.last();
        let cell = last.values@[r]@;
        let t = last.data_type;
        let enc = encoded_cell(t, cell);
        let key_front = serialized_key(front, r);
        let bytes = serialized_key(cols, r) + more;
        assert(bytes =~= key_front + (enc + more));
        assert forall|c: int| 0 <= c < front.len() implies {
            &&& (#[trigger] front[c]).well_formed()
            &&& types[c] == front[c].data_type
            &&& 0 <= r < front[c].values@.len()
            &&& front[c].values@.len() <= usize::MAX
            &&& front[c].values@[r]@ matches Scalar::Binary(b) ==> b.len() <= usize::MAX
        } by {
            assert(front[c] == cols[c]);
        }
        lemma_serialized_key_round_trip(front, types, r, enc + more);
        let pos = key_front.len();
        assert(cols[n - 1] == last);
        assert(types[n - 1] == t);
        assert(cell.fits(t));
        lemma_pow256_values();
        match cell {
            Scalar::UInt(x) => {
                let w = t.width();
                lemma_le_bytes_len(x as nat, w);
                assert(bytes[pos as int] == 1);
                assert(bytes.subrange((pos + 1) as int, (pos + 1 + w) as int) =~= le_bytes(x as nat, w));
                lemma_le_round_trip(x as nat, w);
            },
            Scalar::Binary(b) => {
                lemma_le_bytes_len(b.len(), 8);
                assert(bytes[pos as int] == 1);
                assert(bytes.subrange((pos + 1) as int, (pos + 9) as int) =~= le_bytes(b.len(), 8));
                lemma_le_round_trip(b.len(), 8);
                assert(bytes.subrange((pos + 9) as int, (pos + 9 + b.len()) as int) =~= b);
            },
            Scalar::Null => {
                assert(bytes[pos as int] == 0);
            },
        }
        assert(decoded_cell(t, bytes, pos) == Some((cell, (pos + enc.len()) as nat)));
        assert(serialized_key(cols, r).len() == pos + enc.len());
        assert forall|f: int| 0 <= f < cols.len() implies decoded_field(types, bytes, f as nat) == Some((#[trigger] cols[f]).values@[r]@) by {
            if f < n - 1 {
                assert(front[f] == cols[f]);
            }
        }
    } else {
        assert(serialized_key(cols, r) =~= Seq::<u8>::empty());
    }
}

} // verus!
