//! Hash methods: how the key columns of a row become one hashable key.
//! Narrow integer columns are packed into one fixed-width integer; anything
//! else is serialized into a byte string.

use vstd::prelude::*;
use std::marker::PhantomData;
use crate::byte_layout::{
    field_at, le_bytes, le_value, lemma_le_value_bound, lemma_pack_bound, lemma_pow256_monotonic,
    lemma_pow256_values, lemma_span_concat, lemma_span_suffix, lemma_span_uniform, pack, pow256,
    pow256_word, push_le_bytes, read_le_value, span,
};
use crate::datavalues::{copy_bytes, DataColumn, DataField, DataType, DataValue, Scalar};
use crate::error::ErrorCode;
use crate::selection::{collect_positions, count_of, lemma_positions, positions};

verus! {

/// An unsigned integer type that can serve as a packed key.
pub trait FixedKey: Copy + Sized {
    /// The type's width in bytes: 1, 2, 4 or 8.
    spec fn byte_width() -> nat;

    /// The key as a number.
    spec fn key_value(self) -> nat;

    proof fn lemma_byte_width()
        ensures
            Self::byte_width() == 1 || Self::byte_width() == 2 || Self::byte_width() == 4 || Self::byte_width() == 8,
    ;

    fn width() -> (w: usize)
        ensures
            w == Self::byte_width(),
    ;

    fn from_packed(x: u64) -> (k: Self)
        requires
            x < pow256(Self::byte_width()),
        ensures
            k.key_value() == x,
    ;

    fn to_packed(self) -> (x: u64)
        ensures
            x == self.key_value(),
            x < pow256(Self::byte_width()),
    ;
}

impl FixedKey for u8 {
    open spec fn byte_width() -> nat {
        1
    }

    open spec fn key_value(self) -> nat {
        self as nat
    }

    proof fn lemma_byte_width() {
    }

    fn width() -> (w: usize) {
        1
    }

    fn from_packed(x: u64) -> (k: Self) {
        proof {
            lemma_pow256_values();
        }
        x as u8
    }

    fn to_packed(self) -> (x: u64) {
        proof {
            lemma_pow256_values();
        }
        self as u64
    }
}

impl FixedKey for u16 {
    open spec fn byte_width() -> nat {
        2
    }

    open spec fn key_value(self) -> nat {
        self as nat
    }

    proof fn lemma_byte_width() {
    }

    fn width() -> (w: usize) {
        2
    }

    fn from_packed(x: u64) -> (k: Self) {
        proof {
            lemma_pow256_values();
        }
        x as u16
    }

    fn to_packed(self) -> (x: u64) {
        proof {
            lemma_pow256_values();
        }
        self as u64
    }
}

impl FixedKey for u32 {
    open spec fn byte_width() -> nat {
        4
    }

    open spec fn key_value(self) -> nat {
        self as nat
    }

    proof fn lemma_byte_width() {
    }

    fn width() -> (w: usize) {
        4
    }

    fn from_packed(x: u64) -> (k: Self) {
        proof {
            lemma_pow256_values();
        }
        x as u32
    }

    fn to_packed(self) -> (x: u64) {
        proof {
            lemma_pow256_values();
        }
        self as u64
    }
}

impl FixedKey for u64 {
    open spec fn byte_width() -> nat {
        8
    }

    open spec fn key_value(self) -> nat {
        self as nat
    }

    proof fn lemma_byte_width() {
    }

    fn width() -> (w: usize) {
        8
    }

    fn from_packed(x: u64) -> (k: Self) {
        x
    }

    fn to_packed(self) -> (x: u64) {
        proof {
            lemma_pow256_values();
        }
        self
    }
}

/// The byte width of every column's type.
pub open spec fn column_widths(cols: Seq<DataColumn>) -> Seq<usize> {
    Seq::new(cols.len(), |c: int| cols[c].data_type.width() as usize)
}

/// The order in which columns are laid out in a packed key: widest first,
/// columns of one width in their given order.
pub open spec fn layout(widths: Seq<usize>) -> Seq<usize> {
    positions(widths, 8) + positions(widths, 4) + positions(widths, 2) + positions(widths, 1)
}

/// The bytes that a packed key of these columns takes.
pub open spec fn key_width(widths: Seq<usize>) -> nat {
    8 * count_of(widths, 8) + 4 * count_of(widths, 4) + 2 * count_of(widths, 2) + count_of(widths, 1)
}

/// The integer in row `r` of a column; 0 where the cell holds none.
pub open spec fn cell_value(col: DataColumn, r: int) -> nat {
    match col.values@[r]@ {
        Scalar::UInt(x) => x as nat,
        _ => 0,
    }
}

/// The values of row `r` in layout order.
pub open spec fn laid_out_values(cols: Seq<DataColumn>, r: int) -> Seq<nat> {
    let order = layout(column_widths(cols));
    Seq::new(order.len(), |k: int| cell_value(cols[order[k] as int], r))
}

/// The column widths in layout order.
pub open spec fn laid_out_widths(cols: Seq<DataColumn>) -> Seq<nat> {
    let order = layout(column_widths(cols));
    Seq::new(order.len(), |k: int| cols[order[k] as int].data_type.width())
}

/// The packed key of row `r`: the row's values laid out widest first, the
/// first of them in the least significant bytes.
pub open spec fn packed_key(cols: Seq<DataColumn>, r: int) -> nat {
    pack(laid_out_values(cols, r), laid_out_widths(cols))
}

/// Whether the columns can be packed into keys of `w` bytes for `rows`
/// rows: integer columns of `rows` cells without nulls, whose widths
/// together fit `w` bytes.
pub open spec fn fixed_keys_valid(cols: Seq<DataColumn>, rows: usize, w: nat) -> bool {
    &&& forall|c: int| 0 <= c < cols.len() ==> (#[trigger] cols[c]).data_type.spec_is_integer()
    &&& forall|c: int| 0 <= c < cols.len() ==> (#[trigger] cols[c]).values@.len() == rows
    &&& forall|c: int, r: int| 0 <= c < cols.len() && 0 <= r < rows ==> (#[trigger] cols[c].values@[r])@ != Scalar::Null
    &&& key_width(column_widths(cols)) <= w
}

/// The columns behind a slice of column references.
pub open spec fn referenced(cols: Seq<&DataColumn>) -> Seq<DataColumn> {
    Seq::new(cols.len(), |c: int| *cols[c])
}

/// The layout's widths span exactly the key width.
proof fn lemma_layout_span(cols: Seq<DataColumn>)
    requires
        cols.len() <= usize::MAX,
    ensures
        span(laid_out_widths(cols)) == key_width(column_widths(cols)),
{
    let widths = column_widths(cols);
    let ws = laid_out_widths(cols);
    let eights = positions(widths, 8);
    let fours = positions(widths, 4);
    let twos = positions(widths, 2);
    let ones = positions(widths, 1);
    lemma_positions(widths, 8);
    lemma_positions(widths, 4);
    lemma_positions(widths, 2);
    lemma_positions(widths, 1);
    let eight_wide = Seq::new(eights.len(), |k: int| 8nat);
    let four_wide = Seq::new(fours.len(), |k: int| 4nat);
    let two_wide = Seq::new(twos.len(), |k: int| 2nat);
    let one_wide = Seq::new(ones.len(), |k: int| 1nat);
    assert(ws =~= eight_wide + four_wide + two_wide + one_wide) by {
        assert forall|k: int| 0 <= k < ws.len() implies ws[k] == (eight_wide + four_wide + two_wide + one_wide)[k] by {
            let order = layout(widths);
            let c = order[k] as int;
            assert(widths[c] == cols[c].data_type.width() as usize);
        }
    }
    lemma_span_concat(eight_wide + four_wide + two_wide, one_wide);
    lemma_span_concat(eight_wide + four_wide, two_wide);
    lemma_span_concat(eight_wide, four_wide);
    lemma_span_uniform(eight_wide, 8);
    lemma_span_uniform(four_wide, 4);
    lemma_span_uniform(two_wide, 2);
    lemma_span_uniform(one_wide, 1);
}

/// Packs integer columns into keys of type `T`.
#[derive(Debug)]
pub struct HashMethodFixedKeys<T> {
    pub t: PhantomData<T>,
}

pub type HashMethodKeysU8 = HashMethodFixedKeys<u8>;

pub type HashMethodKeysU16 = HashMethodFixedKeys<u16>;

pub type HashMethodKeysU32 = HashMethodFixedKeys<u32>;

pub type HashMethodKeysU64 = HashMethodFixedKeys<u64>;

impl<T: FixedKey> HashMethodFixedKeys<T> {
    pub fn default() -> (m: Self) {
        HashMethodFixedKeys { t: PhantomData }
    }

    /// The key held in row `row` of a column of keys.
    pub fn get_key(&self, array: &DataColumn, row: usize) -> (key: T)
        requires
            array.well_formed(),
            array.data_type.width() == T::byte_width(),
            row < array.values@.len(),
        ensures
            key.key_value() == cell_value(*array, row as int),
    {
        proof {
            lemma_pow256_values();
            T::lemma_byte_width();
            assert(array.values@[row as int]@.fits(array.data_type));
        }
        match &array.values[row] {
            DataValue::UInt(x) => T::from_packed(*x),
            _ => T::from_packed(0),
        }
    }

    /// The method's name: `FixedKeys` and the key's byte width.
    pub fn name(&self) -> (n: String)
        ensures
            T::byte_width() == 1 ==> n@ == "FixedKeys1"@,
            T::byte_width() == 2 ==> n@ == "FixedKeys2"@,
            T::byte_width() == 4 ==> n@ == "FixedKeys4"@,
            T::byte_width() == 8 ==> n@ == "FixedKeys8"@,
    {
        proof {
            T::lemma_byte_width();
        }
        let w = T::width();
        if w == 1 {
            "FixedKeys1".to_owned()
        } else if w == 2 {
            "FixedKeys2".to_owned()
        } else if w == 4 {
            "FixedKeys4".to_owned()
        } else {
            "FixedKeys8".to_owned()
        }
    }

    /// One packed key per row. The columns must be integer columns of
    /// `rows` cells without nulls whose widths together fit the key type.
    pub fn build_keys(&self, group_columns: &[&DataColumn], rows: usize) -> (r: Result<Vec<T>, ErrorCode>)
        requires
            forall|c: int| 0 <= c < group_columns@.len() ==> (#[trigger] group_columns@[c]).well_formed(),
        ensures
            r.is_ok() <==> fixed_keys_valid(referenced(group_columns@), rows, T::byte_width()),
            r matches Err(e) ==> e == ErrorCode::ConfigurationError,
            r matches Ok(keys) ==> {
                &&& keys@.len() == rows
                &&& forall|i: int| 0 <= i < rows ==> (#[trigger] keys@[i]).key_value() == packed_key(referenced(group_columns@), i)
            },
    {
        let ghost cols = referenced(group_columns@);
        let n = group_columns.len();
        let mut widths: Vec<usize> = Vec::with_capacity(n);
        let mut c: usize = 0;
        while c < n
            invariant
                c <= n,
                n == group_columns@.len(),
                cols == referenced(group_columns@),
                widths@ == column_widths(cols).subrange(0, c as int),
                forall|d: int| 0 <= d < c ==> (#[trigger] cols[d]).data_type.spec_is_integer(),
                forall|d: int| 0 <= d < c ==> (#[trigger] cols[d]).values@.len() == rows,
                forall|d: int, q: int| 0 <= d < c && 0 <= q < rows ==> (#[trigger] cols[d].values@[q])@ != Scalar::Null,
            decreases n - c,
        {
            let col = group_columns[c];
            assert(*col == cols[c as int]);
            let w = match col.data_type().numeric_byte_size() {
                Ok(w) => w,
                Err(e) => {
                    return Err(ErrorCode::ConfigurationError);
                },
            };
            if col.len() != rows {
                return Err(ErrorCode::ConfigurationError);
            }
            let mut q: usize = 0;
            while q < rows
                invariant
                    q <= rows,
                    c < n,
                    n == group_columns@.len(),
                    cols == referenced(group_columns@),
                    *col == cols[c as int],
                    col.values@.len() == rows,
                    forall|p: int| 0 <= p < q ==> (#[trigger] col.values@[p])@ != Scalar::Null,
                decreases rows - q,
            {
                if col.values[q].is_null() {
                    assert(cols[c as int].values@[q as int]@ == Scalar::Null);
                    return Err(ErrorCode::ConfigurationError);
                }
                q += 1;
            }
            widths.push(w);
            c += 1;
            assert(widths@ =~= column_widths(cols).subrange(0, c as int));
        }
        assert(widths@ =~= column_widths(cols));
        let mut order = collect_positions(&widths, 8);
        let eight_count = order.len();
        let mut fours = collect_positions(&widths, 4);
        let four_count = fours.len();
        let mut twos = collect_positions(&widths, 2);
        let two_count = twos.len();
        let mut ones = collect_positions(&widths, 1);
        let one_count = ones.len();
        order.append(&mut fours);
        order.append(&mut twos);
        order.append(&mut ones);
        assert(order@ =~= layout(widths@));
        let total: u128 = 8 * (eight_count as u128) + 4 * (four_count as u128) + 2 * (two_count as u128) + (one_count as u128);
        assert(total == key_width(widths@));
        if total > T::width() as u128 {
            return Err(ErrorCode::ConfigurationError);
        }
        proof {
            T::lemma_byte_width();
            lemma_layout_span(cols);
            lemma_positions(widths@, 8);
            lemma_positions(widths@, 4);
            lemma_positions(widths@, 2);
            lemma_positions(widths@, 1);
        }
        let ghost ws = laid_out_widths(cols);
        let m = order.len();
        let mut keys: Vec<T> = Vec::with_capacity(rows);
        let mut r: usize = 0;
        while r < rows
            invariant
                r <= rows,
                n == group_columns@.len(),
                cols == referenced(group_columns@),
                forall|d: int| 0 <= d < group_columns@.len() ==> (#[trigger] group_columns@[d]).well_formed(),
                fixed_keys_valid(cols, rows, T::byte_width()),
                widths@ == column_widths(cols),
                order@ == layout(widths@),
                m == order@.len(),
                forall|k: int| 0 <= k < m ==> (#[trigger] order@[k]) < n,
                ws == laid_out_widths(cols),
                span(ws) <= T::byte_width(),
                T::byte_width() <= 8,
                keys@.len() == r,
                forall|i: int| 0 <= i < r ==> (#[trigger] keys@[i]).key_value() == packed_key(cols, i),
            decreases rows - r,
        {
            let ghost vals = laid_out_values(cols, r as int);
            proof {
                assert forall|k: int| 0 <= k < vals.len() implies vals[k] < pow256(#[trigger] ws[k]) by {
                    let col = cols[order@[k] as int];
                    assert(group_columns@[order@[k] as int].well_formed());
                    assert(col.values@[r as int]@.fits(col.data_type));
                    lemma_pow256_values();
                }
            }
            let mut acc: u64 = 0;
            let mut k: usize = m;
            assert(vals.subrange(m as int, m as int) =~= Seq::<nat>::empty());
            while k > 0
                invariant
                    k <= m,
                    r < rows,
                    n == group_columns@.len(),
                    cols == referenced(group_columns@),
                    fixed_keys_valid(cols, rows, T::byte_width()),
                    widths@ == column_widths(cols),
                    order@ == layout(widths@),
                    m == order@.len(),
                    forall|j: int| 0 <= j < m ==> (#[trigger] order@[j]) < n,
                    ws == laid_out_widths(cols),
                    vals == laid_out_values(cols, r as int),
                    vals.len() == m,
                    ws.len() == m,
                    forall|j: int| 0 <= j < m ==> vals[j] < pow256(#[trigger] ws[j]),
                    span(ws) <= T::byte_width(),
                    T::byte_width() <= 8,
                    acc == pack(vals.subrange(k as int, m as int), ws.subrange(k as int, m as int)),
                decreases k,
            {
                let ghost tail_v = vals.subrange(k as int, m as int);
                let ghost tail_w = ws.subrange(k as int, m as int);
                let ghost more_v = vals.subrange(k - 1, m as int);
                let ghost more_w = ws.subrange(k - 1, m as int);
                proof {
                    assert(more_v.drop_first() =~= tail_v);
                    assert(more_w.drop_first() =~= tail_w);
                    assert forall|j: int| 0 <= j < more_v.len() implies more_v[j] < pow256(#[trigger] more_w[j]) by {
                        assert(vals[j + k - 1] < pow256(ws[j + k - 1]));
                    }
                    assert forall|j: int| 0 <= j < tail_v.len() implies tail_v[j] < pow256(#[trigger] tail_w[j]) by {
                        assert(vals[j + k] < pow256(ws[j + k]));
                    }
                    lemma_pack_bound(more_v, more_w);
                    lemma_pack_bound(tail_v, tail_w);
                    lemma_span_suffix(ws, k - 1);
                    lemma_pow256_monotonic(span(more_w), 8);
                    lemma_pow256_values();
                }
                k -= 1;
                let col_index = order[k];
                let col = group_columns[col_index];
                assert(*col == cols[col_index as int]);
                let w = widths[col_index];
                assert(w == ws[k as int]);
                let v: u64 = match &col.values[r] {
                    DataValue::UInt(x) => *x,
                    _ => 0,
                };
                assert(v == vals[k as int]);
                if w >= 8 {
                    assert(span(tail_w) == 0);
                    assert(acc == 0) by {
                        assert(pow256(0) == 1);
                    }
                    acc = v;
                    assert(acc == pack(more_v, more_w)) by (nonlinear_arith)
                        requires
                            pack(more_v, more_w) == more_v[0] + pow256(more_w[0]) * pack(tail_v, tail_w),
                            pack(tail_v, tail_w) == 0,
                            acc == more_v[0],
                    ;
                } else {
                    let p = pow256_word(w);
                    assert(p * acc <= pack(more_v, more_w)) by (nonlinear_arith)
                        requires
                            pack(more_v, more_w) == more_v[0] + pow256(more_w[0]) * pack(tail_v, tail_w),
                            p == pow256(more_w[0]),
                            acc == pack(tail_v, tail_w),
                    ;
                    acc = v + p * acc;
                }
            }
            proof {
                assert(vals.subrange(0, m as int) =~= vals);
                assert(ws.subrange(0, m as int) =~= ws);
                lemma_pack_bound(vals, ws);
                lemma_pow256_monotonic(span(ws), T::byte_width());
            }
            keys.push(T::from_packed(acc));
            r += 1;
        }
        Ok(keys)
    }

    /// Splits packed keys back into one column per field. Field `f` is
    /// read at the offset where the fields before it end, in the order the
    /// fields are given; the fields must be integer fields whose widths
    /// together fit the key type.
    pub fn de_group_columns(&self, keys: Vec<T>, group_fields: &[DataField]) -> (r: Result<Vec<DataColumn>, ErrorCode>)
        ensures
            r.is_ok() <==> fields_fit(group_fields@, T::byte_width()),
            r matches Err(e) ==> e == ErrorCode::ConfigurationError,
            r matches Ok(cols) ==> {
                &&& cols@.len() == group_fields@.len()
                &&& forall|f: int| 0 <= f < cols@.len() ==> {
                    &&& (#[trigger] cols@[f]).data_type == group_fields@[f].data_type
                    &&& cols@[f].well_formed()
                    &&& cols@[f].cells() == Seq::new(
                        keys@.len(),
                        |i: int| Scalar::UInt(unpacked_field(field_widths(group_fields@), keys@[i].key_value(), f) as u64),
                    )
                }
            },
    {
        let n = group_fields.len();
        let ghost ws = field_widths(group_fields@);
        let limit = T::width();
        proof {
            T::lemma_byte_width();
        }
        let mut widths: Vec<usize> = Vec::with_capacity(n);
        let mut offsets: Vec<usize> = Vec::with_capacity(n);
        let mut running: usize = 0;
        let mut f: usize = 0;
        while f < n
            invariant
                f <= n,
                n == group_fields@.len(),
                ws == field_widths(group_fields@),
                limit == T::byte_width(),
                limit <= 8,
                running == span(ws.subrange(0, f as int)),
                running <= limit,
                widths@.len() == f,
                offsets@.len() == f,
                forall|g: int| 0 <= g < f ==> (#[trigger] group_fields@[g]).data_type.spec_is_integer(),
                forall|g: int| 0 <= g < f ==> (#[trigger] widths@[g]) == ws[g],
                forall|g: int| 0 <= g < f ==> (#[trigger] offsets@[g]) == span(ws.subrange(0, g)),
                forall|g: int| 0 <= g < f ==> offsets@[g] + (#[trigger] ws[g]) <= limit,
            decreases n - f,
        {
            let w = match group_fields[f].data_type().numeric_byte_size() {
                Ok(w) => w,
                Err(e) => {
                    return Err(ErrorCode::ConfigurationError);
                },
            };
            proof {
                let prefix = ws.subrange(0, f as int);
                let next = ws.subrange(0, f + 1);
                assert(next =~= prefix + seq![ws[f as int]]);
                lemma_span_concat(prefix, seq![ws[f as int]]);
                assert(seq![ws[f as int]].drop_first() =~= Seq::<nat>::empty());
                assert(span(seq![ws[f as int]]) == ws[f as int]) by {
                    reveal_with_fuel(span, 2);
                }
                assert(ws =~= next + ws.subrange(f + 1, n as int));
                lemma_span_concat(next, ws.subrange(f + 1, n as int));
            }
            if w > limit - running {
                return Err(ErrorCode::ConfigurationError);
            }
            widths.push(w);
            offsets.push(running);
            running = running + w;
            f += 1;
        }
        assert(ws.subrange(0, n as int) =~= ws);
        let rows = keys.len();
        let mut cols: Vec<DataColumn> = Vec::with_capacity(n);
        let mut f: usize = 0;
        while f < n
            invariant
                f <= n,
                n == group_fields@.len(),
                ws == field_widths(group_fields@),
                rows == keys@.len(),
                limit == T::byte_width(),
                limit <= 8,
                fields_fit(group_fields@, T::byte_width()),
                widths@.len() == n,
                offsets@.len() == n,
                forall|g: int| 0 <= g < n ==> (#[trigger] widths@[g]) == ws[g],
                forall|g: int| 0 <= g < n ==> (#[trigger] offsets@[g]) == span(ws.subrange(0, g)),
                forall|g: int| 0 <= g < n ==> offsets@[g] + (#[trigger] ws[g]) <= limit,
                cols@.len() == f,
                forall|g: int| 0 <= g < f ==> {
                    &&& (#[trigger] cols@[g]).data_type == group_fields@[g].data_type
                    &&& cols@[g].well_formed()
                    &&& cols@[g].cells() == Seq::new(
                        keys@.len(),
                        |i: int| Scalar::UInt(unpacked_field(ws, keys@[i].key_value(), g) as u64),
                    )
                },
            decreases n - f,
        {
            let data_type = group_fields[f].data_type();
            let w = widths[f];
            let off = offsets[f];
            assert(ws[f as int] == data_type.width());
            assert(data_type.spec_is_integer());
            assert(off + ws[f as int] <= limit);
            let mut values: Vec<DataValue> = Vec::with_capacity(rows);
            let mut i: usize = 0;
            while i < rows
                invariant
                    i <= rows,
                    rows == keys@.len(),
                    f < n,
                    n == group_fields@.len(),
                    ws == field_widths(group_fields@),
                    w == ws[f as int],
                    w == data_type.width(),
                    data_type.spec_is_integer(),
                    off == span(ws.subrange(0, f as int)),
                    off + w <= 8,
                    w >= 1,
                    values@.len() == i,
                    forall|j: int| 0 <= j < i ==> (#[trigger] values@[j])@ == Scalar::UInt(unpacked_field(ws, keys@[j].key_value(), f as int) as u64),
                    forall|j: int| 0 <= j < i ==> (#[trigger] values@[j])@.fits(data_type),
                decreases rows - i,
            {
                let key = keys[i].to_packed();
                proof {
                    lemma_pow256_values();
                }
                let divisor = pow256_word(off);
                let shifted = key / divisor;
                let value = if w >= 8 {
                    shifted
                } else {
                    shifted % pow256_word(w)
                };
                proof {
                    let o = span(ws.subrange(0, f as int));
                    assert(divisor == pow256(o));
                    assert(shifted == (key as nat) / pow256(o));
                    if w >= 8 {
                        assert(w == 8);
                        assert(pow256(ws[f as int]) == 0x1_0000_0000_0000_0000);
                        assert(shifted < pow256(ws[f as int]));
                        vstd::arithmetic::div_mod::lemma_small_mod(shifted as nat, pow256(ws[f as int]));
                        assert((shifted as nat) % pow256(ws[f as int]) == shifted);
                    } else {
                        assert(value == (shifted as nat) % pow256(ws[f as int]));
                    }
                    assert(unpacked_field(ws, key as nat, f as int) == ((key as nat) / pow256(o)) % pow256(ws[f as int]));
                }
                assert(value == unpacked_field(ws, key as nat, f as int));
                values.push(DataValue::UInt(value));
                i += 1;
            }
            let col = DataColumn { data_type, values };
            assert(col.cells() =~= Seq::new(
                keys@.len(),
                |i: int| Scalar::UInt(unpacked_field(ws, keys@[i].key_value(), f as int) as u64),
            ));
            cols.push(col);
            f += 1;
        }
        Ok(cols)
    }
}

/// The byte width of every field's type.
pub open spec fn field_widths(fields: Seq<DataField>) -> Seq<nat> {
    Seq::new(fields.len(), |f: int| fields[f].data_type.width())
}

/// Whether the fields are integer fields whose widths together fit `w`
/// bytes.
pub open spec fn fields_fit(fields: Seq<DataField>, w: nat) -> bool {
    &&& forall|f: int| 0 <= f < fields.len() ==> (#[trigger] fields[f]).data_type.spec_is_integer()
    &&& span(field_widths(fields)) <= w
}

/// The value of field `f` in a packed key whose fields have the widths
/// `widths` and follow one another in that order.
pub open spec fn unpacked_field(widths: Seq<nat>, key: nat, f: int) -> nat {
    field_at(key, span(widths.subrange(0, f)), widths[f])
}

/// Serializes the key columns of a row into a byte string.
#[derive(Clone, Copy, Debug, Default, PartialEq, Eq, Structural)]
pub struct HashMethodSerializer {}

/// The bytes that stand for one cell. A null is the one byte 0. Any other
/// cell is the byte 1 and then its value: an integer's bytes, least
/// significant first, as many as its type is wide; a byte string's length in
/// eight bytes, then the byte string.
pub open spec fn encoded_cell(t: DataType, v: Scalar) -> Seq<u8> {
    match v {
        Scalar::Null => seq![0u8],
        Scalar::UInt(x) => seq![1u8] + le_bytes(x as nat, t.width()),
        Scalar::Binary(b) => seq![1u8] + le_bytes(b.len(), 8) + b,
    }
}

/// The serialized key of row `r`: the row's encoded cells in column order.
pub open spec fn serialized_key(cols: Seq<DataColumn>, r: int) -> Seq<u8>
    decreases cols.len(),
{
    if cols.len() == 0 {
        Seq::empty()
    } else {
        serialized_key(cols.drop_last(), r) + encoded_cell(cols.last().data_type, cols.last().values@[r]@)
    }
}

/// Whether the columns can be serialized for `rows` rows: `rows` cells
/// each.
pub open spec fn serializer_valid(cols: Seq<DataColumn>, rows: usize) -> bool {
    forall|c: int| 0 <= c < cols.len() ==> (#[trigger] cols[c]).values@.len() == rows
}

/// The cell of type `t` that starts at `pos` in `bytes`, with the position
/// behind it: a null behind the byte 0, a value behind the byte 1; nothing
/// where another byte stands or the bytes end too early.
pub open spec fn decoded_cell(t: DataType, bytes: Seq<u8>, pos: nat) -> Option<(Scalar, nat)> {
    if pos + 1 <= bytes.len() {
        if bytes[pos as int] == 0 {
            Some((Scalar::Null, pos + 1))
        } else if bytes[pos as int] == 1 {
            decoded_value(t, bytes, pos + 1)
        } else {
            None
        }
    } else {
        None
    }
}

/// The value of type `t` that starts at `pos` in `bytes`, with the position
/// behind it; nothing where the bytes end too early.
pub open spec fn decoded_value(t: DataType, bytes: Seq<u8>, pos: nat) -> Option<(Scalar, nat)> {
    if t.spec_is_integer() {
        if pos + t.width() <= bytes.len() {
            Some((Scalar::UInt(le_value(bytes.subrange(pos as int, (pos + t.width()) as int)) as u64), pos + t.width()))
        } else {
            None
        }
    } else if pos + 8 <= bytes.len() {
        let n = le_value(bytes.subrange(pos as int, (pos + 8) as int));
        if pos + 8 + n <= bytes.len() {
            Some((Scalar::Binary(bytes.subrange((pos + 8) as int, (pos + 8 + n) as int)), pos + 8 + n))
        } else {
            None
        }
    } else {
        None
    }
}

/// The position in `bytes` behind the first `f` cells.
pub open spec fn cursor_after(types: Seq<DataType>, bytes: Seq<u8>, f: nat) -> Option<nat>
    decreases f,
{
    if f == 0 {
        Some(0)
    } else {
        match cursor_after(types, bytes, (f - 1) as nat) {
            Some(pos) => match decoded_cell(types[f - 1], bytes, pos) {
                Some((_, next)) => Some(next),
                None => None,
            },
            None => None,
        }
    }
}

/// Cell `f` of a serialized key.
pub open spec fn decoded_field(types: Seq<DataType>, bytes: Seq<u8>, f: nat) -> Option<Scalar> {
    match cursor_after(types, bytes, f) {
        Some(pos) => match decoded_cell(types[f as int], bytes, pos) {
            Some((v, _)) => Some(v),
            None => None,
        },
        None => None,
    }
}

/// The types of a list of fields.
pub open spec fn field_types(fields: Seq<DataField>) -> Seq<DataType> {
    Seq::new(fields.len(), |f: int| fields[f].data_type)
}

impl HashMethodSerializer {
    pub fn name(&self) -> (n: String)
        ensures
            n@ == "Serializer"@,
    {
        "Serializer".to_owned()
    }

    /// The key held in row `row` of a column of serialized keys.
    pub fn get_key(&self, array: &DataColumn, row: usize) -> (key: Vec<u8>)
        requires
            row < array.values@.len(),
        ensures
            array.values@[row as int]@ matches Scalar::Binary(b) ==> key@ == b,
            !(array.values@[row as int]@ is Binary) ==> key@.len() == 0,
    {
        match &array.values[row] {
            DataValue::Binary(b) => copy_bytes(b),
            _ => Vec::new(),
        }
    }

    /// One serialized key per row. Every column must have `rows` cells.
    pub fn build_keys(&self, group_columns: &[&DataColumn], rows: usize) -> (r: Result<Vec<Vec<u8>>, ErrorCode>)
        ensures
            r.is_ok() <==> serializer_valid(referenced(group_columns@), rows),
            r matches Err(e) ==> e == ErrorCode::ConfigurationError,
            r matches Ok(keys) ==> {
                &&& keys@.len() == rows
                &&& forall|i: int| 0 <= i < rows ==> (#[trigger] keys@[i])@ == serialized_key(referenced(group_columns@), i)
            },
    {
        let ghost cols = referenced(group_columns@);
        let n = group_columns.len();
        let mut group_keys: Vec<Vec<u8>> = Vec::with_capacity(rows);
        let mut i: usize = 0;
        while i < rows
            invariant
                i <= rows,
                group_keys@.len() == i,
                forall|j: int| 0 <= j < i ==> (#[trigger] group_keys@[j])@.len() == 0,
            decreases rows - i,
        {
            group_keys.push(Vec::new());
            i += 1;
        }
        let mut c: usize = 0;
        assert(cols.subrange(0, 0) =~= Seq::<DataColumn>::empty());
        assert forall|j: int| 0 <= j < rows implies (#[trigger] group_keys@[j])@ == serialized_key(cols.subrange(0, 0), j) by {
            assert(group_keys@[j]@ =~= Seq::<u8>::empty());
        }
        while c < n
            invariant
                c <= n,
                n == group_columns@.len(),
                cols == referenced(group_columns@),
                group_keys@.len() == rows,
                forall|d: int| 0 <= d < c ==> (#[trigger] cols[d]).values@.len() == rows,
                forall|j: int| 0 <= j < rows ==> (#[trigger] group_keys@[j])@ == serialized_key(cols.subrange(0, c as int), j),
            decreases n - c,
        {
            let col = group_columns[c];
            assert(*col == cols[c as int]);
            if col.len() != rows {
                return Err(ErrorCode::ConfigurationError);
            }
            let data_type = col.data_type();
            let width = match data_type.numeric_byte_size() {
                Ok(w) => w,
                Err(e) => 0,
            };
            assert(width == data_type.width());
            assert(cols.subrange(0, c + 1).drop_last() =~= cols.subrange(0, c as int));
            let mut q: usize = 0;
            while q < rows
                invariant
                    q <= rows,
                    c < n,
                    n == group_columns@.len(),
                    cols == referenced(group_columns@),
                    *col == cols[c as int],
                    col.values@.len() == rows,
                    data_type == col.data_type,
                    width == data_type.width(),
                    group_keys@.len() == rows,
                    cols.subrange(0, c + 1).drop_last() == cols.subrange(0, c as int),
                    forall|j: int| 0 <= j < q ==> (#[trigger] group_keys@[j])@ == serialized_key(cols.subrange(0, c + 1), j),
                    forall|j: int| q <= j < rows ==> (#[trigger] group_keys@[j])@ == serialized_key(cols.subrange(0, c as int), j),
                decreases rows - q,
            {
                let ghost front = serialized_key(cols.subrange(0, c as int), q as int);
                match &col.values[q] {
                    DataValue::Null => {
                        group_keys[q].push(0);
                        assert(group_keys@[q as int]@ =~= front + seq![0u8]);
                    },
                    DataValue::UInt(x) => {
                        group_keys[q].push(1);
                        push_le_bytes(&mut group_keys[q], *x, width);
                        assert(group_keys@[q as int]@ =~= front + (seq![1u8] + le_bytes(*x as nat, width as nat)));
                    },
                    DataValue::Binary(b) => {
                        group_keys[q].push(1);
                        push_le_bytes(&mut group_keys[q], b.len() as u64, 8);
                        group_keys[q].extend_from_slice(b.as_slice());
                        assert(group_keys@[q as int]@ =~= front + (seq![1u8] + le_bytes(b@.len(), 8) + b@));
                    },
                }
                q += 1;
            }
            c += 1;
        }
        assert(cols.subrange(0, n as int) =~= cols);
        Ok(group_keys)
    }

    /// Reads serialized keys back into one column per field. Every key
    /// must hold a cell for every field; bytes behind the last cell are
    /// ignored.
    pub fn de_group_columns(&self, keys: Vec<Vec<u8>>, group_fields: &[DataField]) -> (r: Result<Vec<DataColumn>, ErrorCode>)
        ensures
            r.is_ok() <==> (forall|i: int| 0 <= i < keys@.len() ==> cursor_after(field_types(group_fields@), (#[trigger] keys@[i])@, group_fields@.len()).is_some()),
            r matches Err(e) ==> e == ErrorCode::ConfigurationError,
            r matches Ok(cols) ==> {
                &&& cols@.len() == group_fields@.len()
                &&& forall|f: int| 0 <= f < cols@.len() ==> {
                    &&& (#[trigger] cols@[f]).data_type == group_fields@[f].data_type
                    &&& cols@[f].well_formed()
                    &&& cols@[f].values@.len() == keys@.len()
                    &&& forall|i: int| 0 <= i < keys@.len() ==> Some((#[trigger] cols@[f].values@[i])@) == decoded_field(field_types(group_fields@), keys@[i]@, f as nat)
                }
            },
    {
        let n = group_fields.len();
        let rows = keys.len();
        let ghost types = field_types(group_fields@);
        let mut cursors: Vec<usize> = Vec::with_capacity(rows);
        let mut i: usize = 0;
        while i < rows
            invariant
                i <= rows,
                cursors@.len() == i,
                forall|j: int| 0 <= j < i ==> (#[trigger] cursors@[j]) == 0,
            decreases rows - i,
        {
            cursors.push(0);
            i += 1;
        }
        let mut res: Vec<DataColumn> = Vec::with_capacity(n);
        let mut f: usize = 0;
        while f < n
            invariant
                f <= n,
                n == group_fields@.len(),
                rows == keys@.len(),
                types == field_types(group_fields@),
                cursors@.len() == rows,
                forall|j: int| 0 <= j < rows ==> cursor_after(types, keys@[j]@, f as nat) == Some((#[trigger] cursors@[j]) as nat),
                forall|j: int| 0 <= j < rows ==> (#[trigger] cursors@[j]) <= keys@[j]@.len(),
                res@.len() == f,
                forall|g: int| 0 <= g < f ==> {
                    &&& (#[trigger] res@[g]).data_type == group_fields@[g].data_type
                    &&& res@[g].well_formed()
                    &&& res@[g].values@.len() == rows
                    &&& forall|j: int| 0 <= j < rows ==> Some((#[trigger] res@[g].values@[j])@) == decoded_field(types, keys@[j]@, g as nat)
                },
            decreases n - f,
        {
            let data_type = group_fields[f].data_type();
            assert(types[f as int] == data_type);
            let mut values: Vec<DataValue> = Vec::with_capacity(rows);
            let mut j: usize = 0;
            while j < rows
                invariant
                    j <= rows,
                    f < n,
                    n == group_fields@.len(),
                    rows == keys@.len(),
                    types == field_types(group_fields@),
                    types[f as int] == data_type,
                    cursors@.len() == rows,
                    forall|k: int| 0 <= k < j ==> cursor_after(types, keys@[k]@, (f + 1) as nat) == Some((#[trigger] cursors@[k]) as nat),
                    forall|k: int| j <= k < rows ==> cursor_after(types, keys@[k]@, f as nat) == Some((#[trigger] cursors@[k]) as nat),
                    forall|k: int| 0 <= k < rows ==> (#[trigger] cursors@[k]) <= keys@[k]@.len(),
                    values@.len() == j,
                    forall|k: int| 0 <= k < j ==> Some((#[trigger] values@[k])@) == decoded_field(types, keys@[k]@, f as nat),
                    forall|k: int| 0 <= k < j ==> (#[trigger] values@[k])@.fits(data_type),
                decreases rows - j,
            {
                let key = &keys[j];
                let pos = cursors[j];
                let len = key.len();
                proof {
                    lemma_pow256_values();
                }
                if len - pos < 1 {
                    assert(cursor_after(types, keys@[j as int]@, (f + 1) as nat).is_none());
                    assert(cursor_after(types, keys@[j as int]@, n as nat).is_none()) by {
                        lemma_cursor_stays_none(types, keys@[j as int]@, (f + 1) as nat, n as nat);
                    }
                    return Err(ErrorCode::ConfigurationError);
                }
                let flag = key[pos];
                if flag == 0 {
                    values.push(DataValue::Null);
                    cursors.set(j, pos + 1);
                    j += 1;
                    continue;
                }
                if flag != 1 {
                    assert(cursor_after(types, keys@[j as int]@, (f + 1) as nat).is_none());
                    assert(cursor_after(types, keys@[j as int]@, n as nat).is_none()) by {
                        lemma_cursor_stays_none(types, keys@[j as int]@, (f + 1) as nat, n as nat);
                    }
                    return Err(ErrorCode::ConfigurationError);
                }
                let pos = pos + 1;
                match data_type.numeric_byte_size() {
                    Ok(w) => {
                        if len - pos < w {
                            assert(cursor_after(types, keys@[j as int]@, (f + 1) as nat).is_none());
                            assert(cursor_after(types, keys@[j as int]@, n as nat).is_none()) by {
                                lemma_cursor_stays_none(types, keys@[j as int]@, (f + 1) as nat, n as nat);
                            }
                            return Err(ErrorCode::ConfigurationError);
                        }
                        let x = read_le_value(key, pos, w);
                        proof {
                            lemma_le_value_bound(key@.subrange(pos as int, pos + w));
                        }
                        values.push(DataValue::UInt(x));
                        cursors.set(j, pos + w);
                    },
                    Err(_) => {
                        if len - pos < 8 {
                            assert(cursor_after(types, keys@[j as int]@, (f + 1) as nat).is_none());
                            assert(cursor_after(types, keys@[j as int]@, n as nat).is_none()) by {
                                lemma_cursor_stays_none(types, keys@[j as int]@, (f + 1) as nat, n as nat);
                            }
                            return Err(ErrorCode::ConfigurationError);
                        }
                        let count = read_le_value(key, pos, 8);
                        if count > (len - pos - 8) as u64 {
                            assert(cursor_after(types, keys@[j as int]@, (f + 1) as nat).is_none());
                            assert(cursor_after(types, keys@[j as int]@, n as nat).is_none()) by {
                                lemma_cursor_stays_none(types, keys@[j as int]@, (f + 1) as nat, n as nat);
                            }
                            return Err(ErrorCode::ConfigurationError);
                        }
                        let start = pos + 8;
                        let end = start + count as usize;
                        let mut bytes: Vec<u8> = Vec::with_capacity(count as usize);
                        let mut b: usize = start;
                        while b < end
                            invariant
                                start <= b <= end,
                                end <= key@.len(),
                                bytes@ == key@.subrange(start as int, b as int),
                            decreases end - b,
                        {
                            bytes.push(key[b]);
                            b += 1;
                            assert(bytes@ =~= key@.subrange(start as int, b as int));
                        }
                        values.push(DataValue::Binary(bytes));
                        cursors.set(j, end);
                    },
                }
                j += 1;
            }
            res.push(DataColumn { data_type, values });
            f += 1;
        }
        assert forall|i: int| 0 <= i < keys@.len() implies cursor_after(types, (#[trigger] keys@[i])@, n as nat).is_some() by {
            assert(cursor_after(types, keys@[i]@, n as nat) == Some(cursors@[i] as nat));
        }
        Ok(res)
    }
}

/// Once a key is too short for a cell, it is too short for every cell
/// behind it.
pub proof fn lemma_cursor_stays_none(types: Seq<DataType>, bytes: Seq<u8>, f: nat, g: nat)
    requires
        f <= g,
        cursor_after(types, bytes, f).is_none(),
    ensures
        cursor_after(types, bytes, g).is_none(),
    decreases g,
{
    if g > f {
        lemma_cursor_stays_none(types, bytes, f, (g - 1) as nat);
    }
}

/// The ways to turn key columns into keys.
#[derive(Debug)]
pub enum HashMethodKind {
    Serializer(HashMethodSerializer),
    KeysU8(HashMethodKeysU8),
    KeysU16(HashMethodKeysU16),
    KeysU32(HashMethodKeysU32),
    KeysU64(HashMethodKeysU64),
}

impl HashMethodKind {
    /// The method's name.
    pub fn name(&self) -> (n: String)
        ensures
            n@ == (match *self {
                HashMethodKind::Serializer(_) => "Serializer"@,
                HashMethodKind::KeysU8(_) => "FixedKeys1"@,
                HashMethodKind::KeysU16(_) => "FixedKeys2"@,
                HashMethodKind::KeysU32(_) => "FixedKeys4"@,
                HashMethodKind::KeysU64(_) => "FixedKeys8"@,
            }),
    {
        match self {
            HashMethodKind::Serializer(v) => v.name(),
            HashMethodKind::KeysU8(v) => v.name(),
            HashMethodKind::KeysU16(v) => v.name(),
            HashMethodKind::KeysU32(v) => v.name(),
            HashMethodKind::KeysU64(v) => v.name(),
        }
    }

    /// The type of the keys the method builds.
    pub fn data_type(&self) -> (t: DataType)
        ensures
            t == (match *self {
                HashMethodKind::Serializer(_) => DataType::Binary,
                HashMethodKind::KeysU8(_) => DataType::UInt8,
                HashMethodKind::KeysU16(_) => DataType::UInt16,
                HashMethodKind::KeysU32(_) => DataType::UInt32,
                HashMethodKind::KeysU64(_) => DataType::UInt64,
            }),
    {
        match self {
            HashMethodKind::Serializer(_) => DataType::Binary,
            HashMethodKind::KeysU8(_) => DataType::UInt8,
            HashMethodKind::KeysU16(_) => DataType::UInt16,
            HashMethodKind::KeysU32(_) => DataType::UInt32,
            HashMethodKind::KeysU64(_) => DataType::UInt64,
        }
    }
}

/// A way to turn the key columns of rows into keys of type `T`.
pub trait HashMethod<T> {
    /// The method's name.
    fn name(&self) -> String;

    /// One key per row.
    fn build_keys(&self, group_columns: &[&DataColumn], rows: usize) -> Result<Vec<T>, ErrorCode>
        requires
            forall|c: int| 0 <= c < group_columns@.len() ==> (#[trigger] group_columns@[c]).well_formed(),
    ;
}

impl HashMethod<Vec<u8>> for HashMethodSerializer {
    fn name(&self) -> (n: String)
        ensures
            n@ == "Serializer"@,
    {
        HashMethodSerializer::name(self)
    }

    fn build_keys(&self, group_columns: &[&DataColumn], rows: usize) -> (r: Result<Vec<Vec<u8>>, ErrorCode>)
        ensures
            r.is_ok() <==> serializer_valid(referenced(group_columns@), rows),
            r matches Err(e) ==> e == ErrorCode::ConfigurationError,
            r matches Ok(keys) ==> {
                &&& keys@.len() == rows
                &&& forall|i: int| 0 <= i < rows ==> (#[trigger] keys@[i])@ == serialized_key(referenced(group_columns@), i)
            },
    {
        HashMethodSerializer::build_keys(self, group_columns, rows)
    }
}

impl<T: FixedKey> HashMethod<T> for HashMethodFixedKeys<T> {
    fn name(&self) -> (n: String)
        ensures
            T::byte_width() == 1 ==> n@ == "FixedKeys1"@,
            T::byte_width() == 2 ==> n@ == "FixedKeys2"@,
            T::byte_width() == 4 ==> n@ == "FixedKeys4"@,
            T::byte_width() == 8 ==> n@ == "FixedKeys8"@,
    {
        HashMethodFixedKeys::name(self)
    }

    fn build_keys(&self, group_columns: &[&DataColumn], rows: usize) -> (r: Result<Vec<T>, ErrorCode>)
        ensures
            r.is_ok() <==> fixed_keys_valid(referenced(group_columns@), rows, T::byte_width()),
            r matches Err(e) ==> e == ErrorCode::ConfigurationError,
            r matches Ok(keys) ==> {
                &&& keys@.len() == rows
                &&& forall|i: int| 0 <= i < rows ==> (#[trigger] keys@[i]).key_value() == packed_key(referenced(group_columns@), i)
            },
    {
        HashMethodFixedKeys::build_keys(self, group_columns, rows)
    }
}

} // verus!
