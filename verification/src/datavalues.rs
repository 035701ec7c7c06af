//! Column-oriented row batches: data types, values, columns and blocks.

use vstd::prelude::*;
use crate::error::ErrorCode;

verus! {

/// The type of a column's values.
#[derive(Clone, Copy, Debug, PartialEq, Eq, Structural)]
pub enum DataType {
    UInt8,
    UInt16,
    UInt32,
    UInt64,
    Binary,
}

impl DataType {
    /// Width in bytes of a fixed-width type; 0 for a variable-width one.
    pub open spec fn width(self) -> nat {
        match self {
            DataType::UInt8 => 1,
            DataType::UInt16 => 2,
            DataType::UInt32 => 4,
            DataType::UInt64 => 8,
            DataType::Binary => 0,
        }
    }

    /// Whether values of this type are integers.
    pub open spec fn spec_is_integer(self) -> bool {
        self != DataType::Binary
    }

    /// Largest integer a value of this type can hold; 0 for `Binary`.
    pub open spec fn max_value(self) -> nat {
        match self {
            DataType::UInt8 => 0xff,
            DataType::UInt16 => 0xffff,
            DataType::UInt32 => 0xffff_ffff,
            DataType::UInt64 => 0xffff_ffff_ffff_ffff,
            DataType::Binary => 0,
        }
    }

    pub fn is_integer(&self) -> (b: bool)
        ensures
            b == self.spec_is_integer(),
    {
        match self {
            DataType::Binary => false,
            _ => true,
        }
    }

    /// The byte width of an integer type; a variable-width type has none.
    pub fn numeric_byte_size(&self) -> (r: Result<usize, ErrorCode>)
        ensures
            self.spec_is_integer() ==> r == Ok::<usize, ErrorCode>(self.width() as usize),
            !self.spec_is_integer() ==> r == Err::<usize, ErrorCode>(ErrorCode::ConfigurationError),
    {
        match self {
            DataType::UInt8 => Ok(1),
            DataType::UInt16 => Ok(2),
            DataType::UInt32 => Ok(4),
            DataType::UInt64 => Ok(8),
            DataType::Binary => Err(ErrorCode::ConfigurationError),
        }
    }

    /// The largest integer of this type, as a machine word.
    pub fn max_u64(&self) -> (m: u64)
        ensures
            m == self.max_value(),
    {
        match self {
            DataType::UInt8 => 0xff,
            DataType::UInt16 => 0xffff,
            DataType::UInt32 => 0xffff_ffff,
            DataType::UInt64 => 0xffff_ffff_ffff_ffff,
            DataType::Binary => 0,
        }
    }
}

/// The mathematical content of one cell.
pub enum Scalar {
    Null,
    UInt(u64),
    Binary(Seq<u8>),
}

impl Scalar {
    /// Whether the scalar may stand in a column of type `t`. `Null` fits
    /// every column.
    pub open spec fn fits(self, t: DataType) -> bool {
        match self {
            Scalar::Null => true,
            Scalar::UInt(x) => t.spec_is_integer() && x <= t.max_value(),
            Scalar::Binary(_) => t == DataType::Binary,
        }
    }
}

/// One cell of a column.
#[derive(Clone, Debug, PartialEq, Eq)]
pub enum DataValue {
    Null,
    UInt(u64),
    Binary(Vec<u8>),
}

impl View for DataValue {
    type V = Scalar;

    open spec fn view(&self) -> Scalar {
        match self {
            DataValue::Null => Scalar::Null,
            DataValue::UInt(x) => Scalar::UInt(*x),
            DataValue::Binary(b) => Scalar::Binary(b@),
        }
    }
}

/// Copies a byte string.
pub fn copy_bytes(src: &Vec<u8>) -> (dst: Vec<u8>)
    ensures
        dst@ == src@,
{
    let mut dst: Vec<u8> = Vec::with_capacity(src.len());
    let mut i: usize = 0;
    while i < src.len()
        invariant
            i <= src.len(),
            dst@ == src@.subrange(0, i as int),
        decreases src.len() - i,
    {
        dst.push(src[i]);
        i += 1;
        assert(dst@ =~= src@.subrange(0, i as int));
    }
    assert(src@.subrange(0, src.len() as int) =~= src@);
    dst
}

/// Compares two byte strings.
pub fn bytes_equal(a: &Vec<u8>, b: &Vec<u8>) -> (same: bool)
    ensures
        same == (a@ == b@),
{
    if a.len() != b.len() {
        return false;
    }
    let mut i: usize = 0;
    while i < a.len()
        invariant
            i <= a.len(),
            a.len() == b.len(),
            a@.subrange(0, i as int) == b@.subrange(0, i as int),
        decreases a.len() - i,
    {
        if a[i] != b[i] {
            return false;
        }
        i += 1;
        assert(a@.subrange(0, i as int) =~= a@.subrange(0, i - 1).push(a@[i - 1]));
        assert(b@.subrange(0, i as int) =~= b@.subrange(0, i - 1).push(b@[i - 1]));
    }
    assert(a@.subrange(0, a.len() as int) =~= a@);
    assert(b@.subrange(0, b.len() as int) =~= b@);
    true
}

impl DataValue {
    /// A deep copy with the same content.
    pub fn duplicate(&self) -> (copy: DataValue)
        ensures
            copy@ == self@,
    {
        match self {
            DataValue::Null => DataValue::Null,
            DataValue::UInt(x) => DataValue::UInt(*x),
            DataValue::Binary(b) => DataValue::Binary(copy_bytes(b)),
        }
    }

    /// Whether two cells hold the same content. Two nulls count as the same
    /// content here; join matching treats nulls separately.
    pub fn same(&self, other: &DataValue) -> (b: bool)
        ensures
            b == (self@ == other@),
    {
        match (self, other) {
            (DataValue::Null, DataValue::Null) => true,
            (DataValue::UInt(x), DataValue::UInt(y)) => *x == *y,
            (DataValue::Binary(x), DataValue::Binary(y)) => bytes_equal(x, y),
            _ => false,
        }
    }

    pub fn is_null(&self) -> (b: bool)
        ensures
            b == (self@ == Scalar::Null),
    {
        match self {
            DataValue::Null => true,
            _ => false,
        }
    }

    /// Whether the cell may stand in a column of type `t`.
    pub fn fits(&self, t: DataType) -> (b: bool)
        ensures
            b == self@.fits(t),
    {
        match self {
            DataValue::Null => true,
            DataValue::UInt(x) => t.is_integer() && *x <= t.max_u64(),
            DataValue::Binary(_) => match t {
                DataType::Binary => true,
                _ => false,
            },
        }
    }
}

/// The views of a sequence of cells.
pub open spec fn scalars(values: Seq<DataValue>) -> Seq<Scalar> {
    Seq::new(values.len(), |i: int| values[i]@)
}

/// A named, typed column of a schema.
#[derive(Clone, Debug, PartialEq, Eq)]
pub struct DataField {
    pub name: String,
    pub data_type: DataType,
}

impl DataField {
    pub fn new(name: String, data_type: DataType) -> (f: DataField)
        ensures
            f.name == name,
            f.data_type == data_type,
    {
        DataField { name, data_type }
    }

    pub fn data_type(&self) -> (t: DataType)
        ensures
            t == self.data_type,
    {
        self.data_type
    }

    pub fn duplicate(&self) -> (f: DataField)
        ensures
            f == *self,
    {
        DataField { name: self.name.clone(), data_type: self.data_type }
    }
}

/// A typed column of cells.
#[derive(Clone, Debug, PartialEq, Eq)]
pub struct DataColumn {
    pub data_type: DataType,
    pub values: Vec<DataValue>,
}

impl DataColumn {
    /// Every cell fits the column's type.
    pub open spec fn well_formed(&self) -> bool {
        forall|i: int| 0 <= i < self.values@.len() ==> (#[trigger] self.values@[i])@.fits(self.data_type)
    }

    /// The column's cells as scalars.
    pub open spec fn cells(&self) -> Seq<Scalar> {
        scalars(self.values@)
    }

    /// Builds a column, rejecting a cell that does not fit the type.
    pub fn new(data_type: DataType, values: Vec<DataValue>) -> (r: Result<DataColumn, ErrorCode>)
        ensures
            (forall|i: int| 0 <= i < values@.len() ==> (#[trigger] values@[i])@.fits(data_type)) ==> r.is_ok(),
            r matches Ok(c) ==> c.data_type == data_type && c.values == values && c.well_formed(),
            r matches Err(e) ==> e == ErrorCode::ConfigurationError,
    {
        let mut i: usize = 0;
        while i < values.len()
            invariant
                i <= values.len(),
                forall|j: int| 0 <= j < i ==> (#[trigger] values@[j])@.fits(data_type),
            decreases values.len() - i,
        {
            if !values[i].fits(data_type) {
                return Err(ErrorCode::ConfigurationError);
            }
            i += 1;
        }
        Ok(DataColumn { data_type, values })
    }

    /// A column of `rows` copies of one value.
    pub fn repeat(value: &DataValue, rows: usize, data_type: DataType) -> (c: DataColumn)
        requires
            value@.fits(data_type),
        ensures
            c.data_type == data_type,
            c.well_formed(),
            c.cells() == Seq::new(rows as nat, |i: int| value@),
    {
        let mut values: Vec<DataValue> = Vec::with_capacity(rows);
        let mut i: usize = 0;
        while i < rows
            invariant
                i <= rows,
                values@.len() == i,
                forall|j: int| 0 <= j < i ==> (#[trigger] values@[j])@ == value@,
            decreases rows - i,
        {
            values.push(value.duplicate());
            i += 1;
        }
        let c = DataColumn { data_type, values };
        assert(c.cells() =~= Seq::new(rows as nat, |i: int| value@));
        c
    }

    pub fn len(&self) -> (n: usize)
        ensures
            n == self.values@.len(),
    {
        self.values.len()
    }

    /// Checks that every cell fits the column's type.
    pub fn is_well_formed(&self) -> (b: bool)
        ensures
            b == self.well_formed(),
    {
        let mut i: usize = 0;
        while i < self.values.len()
            invariant
                i <= self.values@.len(),
                forall|j: int| 0 <= j < i ==> (#[trigger] self.values@[j])@.fits(self.data_type),
            decreases self.values@.len() - i,
        {
            if !self.values[i].fits(self.data_type) {
                return false;
            }
            i += 1;
        }
        true
    }

    pub fn data_type(&self) -> (t: DataType)
        ensures
            t == self.data_type,
    {
        self.data_type
    }

    /// A deep copy.
    pub fn duplicate(&self) -> (c: DataColumn)
        ensures
            c.data_type == self.data_type,
            c.cells() == self.cells(),
            self.well_formed() ==> c.well_formed(),
    {
        let mut values: Vec<DataValue> = Vec::with_capacity(self.values.len());
        let mut i: usize = 0;
        while i < self.values.len()
            invariant
                i <= self.values.len(),
                values@.len() == i,
                forall|j: int| 0 <= j < i ==> (#[trigger] values@[j])@ == self.values@[j]@,
            decreases self.values.len() - i,
        {
            values.push(self.values[i].duplicate());
            i += 1;
        }
        let c = DataColumn { data_type: self.data_type, values };
        assert(c.cells() =~= self.cells());
        c
    }

    /// The cells at the given rows, in the order given.
    pub fn take(&self, rows: &Vec<usize>) -> (c: DataColumn)
        requires
            forall|i: int| 0 <= i < rows@.len() ==> (#[trigger] rows@[i]) < self.values@.len(),
        ensures
            c.data_type == self.data_type,
            c.cells() == Seq::new(rows@.len(), |i: int| self.cells()[rows@[i] as int]),
            self.well_formed() ==> c.well_formed(),
    {
        let mut values: Vec<DataValue> = Vec::with_capacity(rows.len());
        let mut i: usize = 0;
        while i < rows.len()
            invariant
                i <= rows.len(),
                values@.len() == i,
                forall|j: int| 0 <= j < rows@.len() ==> (#[trigger] rows@[j]) < self.values@.len(),
                forall|j: int| 0 <= j < i ==> (#[trigger] values@[j])@ == self.values@[rows@[j] as int]@,
            decreases rows.len() - i,
        {
            values.push(self.values[rows[i]].duplicate());
            i += 1;
        }
        let c = DataColumn { data_type: self.data_type, values };
        assert(c.cells() =~= Seq::new(rows@.len(), |i: int| self.cells()[rows@[i] as int]));
        c
    }
}

/// The mathematical content of a block: its column types and its rows.
pub struct BlockView {
    pub types: Seq<DataType>,
    pub rows: Seq<Seq<Scalar>>,
}

/// A batch of rows stored column by column.
#[derive(Clone, Debug, PartialEq, Eq)]
pub struct DataBlock {
    pub columns: Vec<DataColumn>,
    pub num_rows: usize,
}

impl View for DataBlock {
    type V = BlockView;

    open spec fn view(&self) -> BlockView {
        BlockView { types: self.types(), rows: self.rows() }
    }
}

impl DataBlock {
    /// Every column is well formed and has one cell per row.
    pub open spec fn well_formed(&self) -> bool {
        forall|c: int| 0 <= c < self.columns@.len() ==> {
            &&& (#[trigger] self.columns@[c]).well_formed()
            &&& self.columns@[c].values@.len() == self.num_rows
        }
    }

    /// The cell at row `r` of column `c`.
    pub open spec fn cell(&self, r: int, c: int) -> Scalar {
        self.columns@[c].values@[r]@
    }

    /// Row `r`, one scalar per column.
    pub open spec fn row(&self, r: int) -> Seq<Scalar> {
        Seq::new(self.columns@.len(), |c: int| self.cell(r, c))
    }

    /// All rows in order.
    pub open spec fn rows(&self) -> Seq<Seq<Scalar>> {
        Seq::new(self.num_rows as nat, |r: int| self.row(r))
    }

    /// The column types in order.
    pub open spec fn types(&self) -> Seq<DataType> {
        Seq::new(self.columns@.len(), |c: int| self.columns@[c].data_type)
    }

    /// A block of the given columns, which must all have the same length.
    /// A block without columns has no rows.
    pub fn new(columns: Vec<DataColumn>) -> (r: Result<DataBlock, ErrorCode>)
        requires
            forall|c: int| 0 <= c < columns@.len() ==> (#[trigger] columns@[c]).well_formed(),
        ensures
            r.is_ok() <==> (forall|c: int| 0 <= c < columns@.len() ==> (#[trigger] columns@[c]).values@.len() == columns@[0].values@.len()),
            r matches Ok(b) ==> {
                &&& b.columns == columns
                &&& b.well_formed()
                &&& columns@.len() > 0 ==> b.num_rows == columns@[0].values@.len()
                &&& columns@.len() == 0 ==> b.num_rows == 0
            },
            r matches Err(e) ==> e == ErrorCode::ConfigurationError,
    {
        if columns.len() == 0 {
            return Ok(DataBlock { columns, num_rows: 0 });
        }
        let n = columns[0].len();
        let mut c: usize = 1;
        while c < columns.len()
            invariant
                1 <= c <= columns.len(),
                n == columns@[0].values@.len(),
                forall|j: int| 0 <= j < c ==> (#[trigger] columns@[j]).values@.len() == n,
            decreases columns.len() - c,
        {
            if columns[c].len() != n {
                return Err(ErrorCode::ConfigurationError);
            }
            c += 1;
        }
        Ok(DataBlock { columns, num_rows: n })
    }

    /// A block without columns or rows.
    pub fn empty() -> (b: DataBlock)
        ensures
            b.well_formed(),
            b.num_rows == 0,
            b.columns@.len() == 0,
    {
        DataBlock { columns: Vec::new(), num_rows: 0 }
    }

    pub fn num_rows(&self) -> (n: usize)
        ensures
            n == self.num_rows,
    {
        self.num_rows
    }

    /// Checks that every column is well formed and has one cell per row.
    pub fn is_well_formed(&self) -> (b: bool)
        ensures
            b == self.well_formed(),
    {
        let mut c: usize = 0;
        while c < self.columns.len()
            invariant
                c <= self.columns@.len(),
                forall|d: int| 0 <= d < c ==> (#[trigger] self.columns@[d]).well_formed() && self.columns@[d].values@.len() == self.num_rows,
            decreases self.columns@.len() - c,
        {
            if self.columns[c].len() != self.num_rows || !self.columns[c].is_well_formed() {
                return false;
            }
            c += 1;
        }
        true
    }

    pub fn num_columns(&self) -> (n: usize)
        ensures
            n == self.columns@.len(),
    {
        self.columns.len()
    }

    /// The column at `offset`.
    pub fn get_by_offset(&self, offset: usize) -> (c: &DataColumn)
        requires
            offset < self.columns@.len(),
        ensures
            *c == self.columns@[offset as int],
    {
        &self.columns[offset]
    }

    /// The rows at the given positions, in the order given.
    pub fn take(&self, rows: &Vec<usize>) -> (b: DataBlock)
        requires
            self.well_formed(),
            forall|i: int| 0 <= i < rows@.len() ==> (#[trigger] rows@[i]) < self.num_rows,
        ensures
            b.well_formed(),
            b.types() == self.types(),
            b.num_rows == rows@.len(),
            b.rows() == Seq::new(rows@.len(), |i: int| self.rows()[rows@[i] as int]),
    {
        let mut columns: Vec<DataColumn> = Vec::with_capacity(self.columns.len());
        let mut c: usize = 0;
        while c < self.columns.len()
            invariant
                c <= self.columns.len(),
                columns@.len() == c,
                self.well_formed(),
                forall|i: int| 0 <= i < rows@.len() ==> (#[trigger] rows@[i]) < self.num_rows,
                forall|j: int| 0 <= j < c ==> {
                    &&& (#[trigger] columns@[j]).well_formed()
                    &&& columns@[j].data_type == self.columns@[j].data_type
                    &&& columns@[j].cells() == Seq::new(rows@.len(), |i: int| self.columns@[j].cells()[rows@[i] as int])
                },
            decreases self.columns.len() - c,
        {
            assert(self.columns@[c as int].well_formed());
            let col = self.columns[c].take(rows);
            columns.push(col);
            c += 1;
        }
        let b = DataBlock { columns, num_rows: rows.len() };
        proof {
            assert forall|j: int| 0 <= j < b.columns@.len() implies (#[trigger] b.columns@[j]).values@.len() == b.num_rows by {
                assert(b.columns@[j].cells().len() == rows@.len());
            }
            assert(b.types() =~= self.types());
            let want = Seq::new(rows@.len(), |i: int| self.rows()[rows@[i] as int]);
            assert forall|r: int| 0 <= r < rows@.len() implies b.rows()[r] == want[r] by {
                assert forall|j: int| 0 <= j < b.columns@.len() implies b.row(r)[j] == self.row(rows@[r] as int)[j] by {
                    assert(b.columns@[j].cells()[r] == self.columns@[j].cells()[rows@[r] as int]);
                }
                assert(b.row(r) =~= self.row(rows@[r] as int));
            }
            assert(b.rows() =~= want);
        }
        b
    }

    /// A deep copy.
    pub fn duplicate(&self) -> (b: DataBlock)
        requires
            self.well_formed(),
        ensures
            b.well_formed(),
            b@ == self@,
            b.num_rows == self.num_rows,
    {
        let mut columns: Vec<DataColumn> = Vec::with_capacity(self.columns.len());
        let mut c: usize = 0;
        while c < self.columns.len()
            invariant
                c <= self.columns.len(),
                columns@.len() == c,
                self.well_formed(),
                forall|j: int| 0 <= j < c ==> {
                    &&& (#[trigger] columns@[j]).well_formed()
                    &&& columns@[j].data_type == self.columns@[j].data_type
                    &&& columns@[j].cells() == self.columns@[j].cells()
                },
            decreases self.columns.len() - c,
        {
            let col = self.columns[c].duplicate();
            columns.push(col);
            c += 1;
        }
        let b = DataBlock { columns, num_rows: self.num_rows };
        proof {
            assert forall|j: int| 0 <= j < b.columns@.len() implies (#[trigger] b.columns@[j]).values@.len() == b.num_rows by {
                assert(b.columns@[j].cells().len() == self.columns@[j].cells().len());
                assert(self.columns@[j].well_formed());
            }
            assert(b.types() =~= self.types());
            assert forall|r: int| 0 <= r < self.num_rows implies b.rows()[r] == self.rows()[r] by {
                assert forall|j: int| 0 <= j < b.columns@.len() implies b.row(r)[j] == self.row(r)[j] by {
                    assert(b.columns@[j].cells()[r] == self.columns@[j].cells()[r]);
                }
                assert(b.row(r) =~= self.row(r));
            }
            assert(b.rows() =~= self.rows());
        }
        b
    }
}

} // verus!
