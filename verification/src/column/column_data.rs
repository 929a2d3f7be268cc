//! The storage of a column: one closed family of layouts behind one interface.

use std::sync::Arc;
use chrono_tz::Tz;
use vstd::prelude::*;
use crate::column::numeric::VectorColumnData;
use crate::column::string_pool::StringPool;
use crate::decimal::{Decimal, NoBits};
use crate::errors::{DriverError, Error, FromSqlError};
use crate::shared::share;
use crate::types::{Either, SqlType};
use crate::value::{bytes_clone, bytes_slice, Value, ValueView};

verus! {

/// The rows of one column in one of the physical layouts, or a view of other
/// storage that copies nothing.
pub enum ColumnData {
    UInt8(VectorColumnData<u8>),
    UInt16(VectorColumnData<u16>),
    UInt32(VectorColumnData<u32>),
    UInt64(VectorColumnData<u64>),
    Int8(VectorColumnData<i8>),
    Int16(VectorColumnData<i16>),
    Int32(VectorColumnData<i32>),
    Int64(VectorColumnData<i64>),
    /// Bit patterns of single-precision numbers.
    Float32(VectorColumnData<u32>),
    /// Bit patterns of double-precision numbers.
    Float64(VectorColumnData<u64>),
    /// Days since the epoch, and the time zone they are meant in.
    Date(VectorColumnData<u16>, Tz),
    /// Seconds since the epoch, and the time zone they are shown in.
    DateTime(VectorColumnData<u32>, Tz),
    /// Byte strings of any length.
    String(StringPool),
    /// `rows` strings of `str_len` bytes each, one after the other.
    FixedString { buffer: Vec<u8>, str_len: usize, rows: usize },
    Decimal32 { narrow: VectorColumnData<i32>, precision: u8, scale: u8 },
    Decimal64 { medium: VectorColumnData<i64>, precision: u8, scale: u8 },
    Decimal128 { wide: VectorColumnData<i128>, precision: u8, scale: u8 },
    /// One flag per row, not zero for null, over a column of as many rows.
    Nullable { nulls: Vec<u8>, inner: Box<ColumnData> },
    /// For each row the end of its items in `inner`.
    Array { offsets: Vec<usize>, inner: Box<ColumnData> },
    /// The rows of `column` presented as values of type `dst`.
    Cast { column: Arc<ColumnData>, dst: SqlType },
    /// The rows `[start, end)` of `data`.
    Chunk { data: Arc<ColumnData>, start: usize, end: usize },
    /// The rows of the parts, one part after the other; `index[i]` is the row
    /// at which part `i` starts, and the last entry the number of all rows.
    Concat { parts: Vec<Arc<ColumnData>>, index: Vec<usize> },
}

/// The time zone that storage of type `t` carries when it is made with `tz`.
pub open spec fn zone_of(t: SqlType, tz: Tz) -> Option<Tz> {
    if t.dated() {
        Some(tz)
    } else {
        None
    }
}

/// The rows of the first `n` parts, one part after the other.
pub open spec fn joined(parts: Seq<Arc<ColumnData>>, n: nat) -> Seq<ValueView>
    decreases parts, n,
{
    if n == 0 || n > parts.len() {
        Seq::empty()
    } else {
        joined(parts, (n - 1) as nat) + parts[n - 1].rows()
    }
}

/// Whether `index` holds the row at which each part starts, and at its end the
/// number of all rows.
pub open spec fn indexed(parts: Seq<Arc<ColumnData>>, index: Seq<usize>) -> bool {
    &&& index.len() == parts.len() + 1
    &&& index[0] == 0
    &&& forall|i: int|
        0 <= i < parts.len() ==> index[i + 1] == index[i] + (#[trigger] parts[i]).rows().len()
}

/// The index counts the rows of the parts before each part.
pub proof fn lemma_joined_len(parts: Seq<Arc<ColumnData>>, index: Seq<usize>, n: nat)
    requires
        indexed(parts, index),
        n <= parts.len(),
    ensures
        joined(parts, n).len() == index[n as int],
    decreases n,
{
    if n > 0 {
        lemma_joined_len(parts, index, (n - 1) as nat);
    }
}

/// A row of the joined parts is the row of the part whose bracket of the
/// index holds it.
pub proof fn lemma_joined_row(
    parts: Seq<Arc<ColumnData>>,
    index: Seq<usize>,
    n: nat,
    part: int,
    row: int,
)
    requires
        indexed(parts, index),
        0 <= part < n <= parts.len(),
        index[part] <= row < index[part + 1],
    ensures
        joined(parts, n)[row] == parts[part].rows()[row - index[part]],
    decreases n,
{
    lemma_joined_len(parts, index, (n - 1) as nat);
    if part < n - 1 {
        lemma_index_monotone(parts, index, part + 1, n - 1);
        lemma_joined_row(parts, index, (n - 1) as nat, part, row);
    }
}

/// The index does not decrease.
pub proof fn lemma_index_monotone(
    parts: Seq<Arc<ColumnData>>,
    index: Seq<usize>,
    a: int,
    b: int,
)
    requires
        indexed(parts, index),
        0 <= a <= b <= parts.len(),
    ensures
        index[a] <= index[b],
    decreases b - a,
{
    if a < b {
        lemma_index_monotone(parts, index, a, b - 1);
        assert(index[b] == index[b - 1] + parts[b - 1].rows().len());
    }
}

/// Finds the part whose bracket of the index holds `row`.
pub fn find_chunk(index: &Vec<usize>, row: usize) -> (r: usize)
    requires
        index@.len() >= 2,
        forall|i: int, j: int| 0 <= i <= j < index@.len() ==> index@[i] <= index@[j],
        index@[0] <= row < index@[index@.len() - 1],
    ensures
        r + 1 < index@.len(),
        index@[r as int] <= row < index@[r + 1],
{
    let mut lo: usize = 0;
    let mut hi: usize = index.len() - 1;
    while hi - lo > 1
        invariant
            lo < hi < index@.len(),
            index@[lo as int] <= row < index@[hi as int],
        decreases hi - lo,
    {
        let mid = lo + (hi - lo) / 2;
        if index[mid] <= row {
            lo = mid;
        } else {
            hi = mid;
        }
    }
    lo
}

/// How many rows the innermost column of a column of type `t` gains when the
/// value is appended: one for a value that is no array; for an array, what its
/// items add; for null, what the default of the wrapped type adds.
pub open spec fn growth(t: SqlType, v: ValueView) -> nat
    decreases t, 0nat, 0nat,
{
    match t {
        SqlType::Nullable(inner) => match v {
            ValueView::Nullable(Either::Right(wrapped)) => growth(*inner, *wrapped),
            _ => growth(*inner, ValueView::default_of(*inner)),
        },
        SqlType::Array(inner) => match v {
            ValueView::Array(_, items) => growth_of_all(*inner, items, items.len()),
            _ => 0,
        },
        _ => 1,
    }
}

/// How many rows the innermost column gains by the first `n` of the items.
pub open spec fn growth_of_all(t: SqlType, items: Seq<ValueView>, n: nat) -> nat
    decreases t, 1nat, n,
{
    if n == 0 || n > items.len() {
        0
    } else {
        growth_of_all(t, items, (n - 1) as nat) + growth(t, items[n - 1])
    }
}

/// More items add no fewer rows.
pub proof fn lemma_growth_of_all(t: SqlType, items: Seq<ValueView>, a: nat, b: nat)
    requires
        a <= b <= items.len(),
    ensures
        growth_of_all(t, items, a) <= growth_of_all(t, items, b),
    decreases b,
{
    if a < b {
        lemma_growth_of_all(t, items, a, (b - 1) as nat);
    }
}

/// Computes how many rows the innermost column of a column of type `t` gains
/// when the value is appended, where a `usize` holds that number.
#[verifier::loop_isolation(false)]
pub fn growth_of(t: &SqlType, value: &Value) -> (r: Option<usize>)
    ensures
        match r {
            Some(g) => g == growth(*t, value@),
            None => growth(*t, value@) > usize::MAX,
        },
    decreases t,
{
    match t {
        SqlType::Nullable(inner) => match value {
            Value::Nullable(Either::Right(wrapped)) => growth_of(&**inner, &**wrapped),
            _ => {
                let filler = Value::default_for(&**inner);
                growth_of(&**inner, &filler)
            },
        },
        SqlType::Array(inner) => match value {
            Value::Array(_, items) => {
                let ghost all = value@->Array_1;
                let mut total: usize = 0;
                let mut i: usize = 0;
                while i < items.len()
                    invariant
                        i <= items.len(),
                        all.len() == items.len(),
                        total == growth_of_all(**inner, all, i as nat),
                    decreases items.len() - i,
                {
                    assert(all[i as int] == items[i as int]@);
                    proof {
                        lemma_growth_of_all(**inner, all, (i + 1) as nat, all.len());
                    }
                    let one = match growth_of(&**inner, &items[i]) {
                        Some(g) => g,
                        None => {
                            return None;
                        },
                    };
                    total = match total.checked_add(one) {
                        Some(sum) => sum,
                        None => {
                            return None;
                        },
                    };
                    i += 1;
                }
                Some(total)
            },
            _ => Some(0),
        },
        _ => Some(1),
    }
}

/// Where the items of row `i` start in the flattened items.
pub open spec fn row_start(offsets: Seq<usize>, i: int) -> int {
    if i <= 0 {
        0
    } else {
        offsets[i - 1] as int
    }
}

impl ColumnData {
    /// The declared type.
    pub open spec fn spec_sql_type(&self) -> SqlType
        decreases self,
    {
        match self {
            ColumnData::UInt8(_) => SqlType::UInt8,
            ColumnData::UInt16(_) => SqlType::UInt16,
            ColumnData::UInt32(_) => SqlType::UInt32,
            ColumnData::UInt64(_) => SqlType::UInt64,
            ColumnData::Int8(_) => SqlType::Int8,
            ColumnData::Int16(_) => SqlType::Int16,
            ColumnData::Int32(_) => SqlType::Int32,
            ColumnData::Int64(_) => SqlType::Int64,
            ColumnData::Float32(_) => SqlType::Float32,
            ColumnData::Float64(_) => SqlType::Float64,
            ColumnData::Date(_, _) => SqlType::Date,
            ColumnData::DateTime(_, _) => SqlType::DateTime,
            ColumnData::String(_) => SqlType::String,
            ColumnData::FixedString { str_len, .. } => SqlType::FixedString(*str_len),
            ColumnData::Decimal32 { precision, scale, .. } => SqlType::Decimal(*precision, *scale),
            ColumnData::Decimal64 { precision, scale, .. } => SqlType::Decimal(*precision, *scale),
            ColumnData::Decimal128 { precision, scale, .. } => SqlType::Decimal(
                *precision,
                *scale,
            ),
            ColumnData::Nullable { inner, .. } => SqlType::Nullable(
                Box::new(inner.spec_sql_type()),
            ),
            ColumnData::Array { inner, .. } => SqlType::Array(Box::new(inner.spec_sql_type())),
            ColumnData::Cast { dst, .. } => *dst,
            ColumnData::Chunk { data, .. } => data.spec_sql_type(),
            ColumnData::Concat { parts, .. } => if parts@.len() > 0 {
                parts@[0].spec_sql_type()
            } else {
                SqlType::UInt8
            },
        }
    }

    /// The time zone that the dates of the storage are meant in, if it holds dates.
    pub open spec fn spec_timezone(&self) -> Option<Tz>
        decreases self,
    {
        match self {
            ColumnData::Date(_, tz) => Some(*tz),
            ColumnData::DateTime(_, tz) => Some(*tz),
            ColumnData::Nullable { inner, .. } => inner.spec_timezone(),
            ColumnData::Array { inner, .. } => inner.spec_timezone(),
            ColumnData::Cast { column, .. } => column.spec_timezone(),
            ColumnData::Chunk { data, .. } => data.spec_timezone(),
            ColumnData::Concat { parts, .. } => if parts@.len() > 0 {
                parts@[0].spec_timezone()
            } else {
                None
            },
            _ => None,
        }
    }

    /// The rows, as the values that `at` reports.
    pub open spec fn rows(&self) -> Seq<ValueView>
        decreases self,
    {
        match self {
            ColumnData::UInt8(v) => v@.map_values(|x: u8| ValueView::UInt8(x)),
            ColumnData::UInt16(v) => v@.map_values(|x: u16| ValueView::UInt16(x)),
            ColumnData::UInt32(v) => v@.map_values(|x: u32| ValueView::UInt32(x)),
            ColumnData::UInt64(v) => v@.map_values(|x: u64| ValueView::UInt64(x)),
            ColumnData::Int8(v) => v@.map_values(|x: i8| ValueView::Int8(x)),
            ColumnData::Int16(v) => v@.map_values(|x: i16| ValueView::Int16(x)),
            ColumnData::Int32(v) => v@.map_values(|x: i32| ValueView::Int32(x)),
            ColumnData::Int64(v) => v@.map_values(|x: i64| ValueView::Int64(x)),
            ColumnData::Float32(v) => v@.map_values(|x: u32| ValueView::Float32(x)),
            ColumnData::Float64(v) => v@.map_values(|x: u64| ValueView::Float64(x)),
            ColumnData::Date(v, _) => v@.map_values(|x: u16| ValueView::Date(x)),
            ColumnData::DateTime(v, _) => v@.map_values(|x: u32| ValueView::DateTime(x)),
            ColumnData::String(pool) => pool@.map_values(|b: Seq<u8>| ValueView::String(b)),
            ColumnData::FixedString { buffer, str_len, rows } => Seq::new(
                *rows as nat,
                |i: int| ValueView::String(buffer@.subrange(i * *str_len, (i + 1) * *str_len)),
            ),
            ColumnData::Decimal32 { narrow, precision, scale } => narrow@.map_values(
                |x: i32|
                    ValueView::Decimal(
                        Decimal { underlying: x as i128, precision: *precision, scale: *scale },
                    ),
            ),
            ColumnData::Decimal64 { medium, precision, scale } => medium@.map_values(
                |x: i64|
                    ValueView::Decimal(
                        Decimal { underlying: x as i128, precision: *precision, scale: *scale },
                    ),
            ),
            ColumnData::Decimal128 { wide, precision, scale } => wide@.map_values(
                |x: i128|
                    ValueView::Decimal(
                        Decimal { underlying: x, precision: *precision, scale: *scale },
                    ),
            ),
            ColumnData::Nullable { nulls, inner } => {
                let payload = inner.rows();
                let t = inner.spec_sql_type();
                Seq::new(
                    nulls@.len(),
                    |i: int|
                        if nulls@[i] != 0 {
                            ValueView::Nullable(Either::Left(t))
                        } else {
                            ValueView::Nullable(Either::Right(Box::new(payload[i])))
                        },
                )
            },
            ColumnData::Array { offsets, inner } => {
                let items = inner.rows();
                let t = inner.spec_sql_type();
                Seq::new(
                    offsets@.len(),
                    |i: int|
                        ValueView::Array(
                            t,
                            items.subrange(row_start(offsets@, i), offsets@[i] as int),
                        ),
                )
            },
            ColumnData::Cast { column, dst } => column.rows().map_values(
                |v: ValueView| v.cast(*dst),
            ),
            ColumnData::Chunk { data, start, end } => data.rows().subrange(
                *start as int,
                *end as int,
            ),
            ColumnData::Concat { parts, .. } => joined(parts@, parts@.len()),
        }
    }

    /// The invariant of the storage: the parts of each layout agree with one
    /// another, and the declared type is a supported one.
    pub open spec fn wf(&self) -> bool
        decreases self,
    {
        match self {
            ColumnData::String(pool) => pool.wf(),
            ColumnData::FixedString { buffer, str_len, rows } => buffer@.len() == *rows
                * *str_len,
            ColumnData::Decimal32 { precision, scale, .. } => NoBits::spec_from_precision(
                *precision,
            ) == Some(NoBits::N32),
            ColumnData::Decimal64 { precision, scale, .. } => NoBits::spec_from_precision(
                *precision,
            ) == Some(NoBits::N64),
            ColumnData::Decimal128 { precision, scale, .. } => NoBits::spec_from_precision(
                *precision,
            ) == Some(NoBits::N128),
            ColumnData::Nullable { nulls, inner } => inner.wf() && nulls@.len()
                == inner.rows().len(),
            ColumnData::Array { offsets, inner } => {
                &&& inner.wf()
                &&& forall|i: int, j: int|
                    0 <= i <= j < offsets@.len() ==> offsets@[i] <= offsets@[j]
                &&& row_start(offsets@, offsets@.len() as int) == inner.rows().len()
            },
            ColumnData::Cast { column, dst } => column.wf() && SqlType::castable(
                *dst,
                column.spec_sql_type(),
            ),
            ColumnData::Chunk { data, start, end } => data.wf() && *start <= *end
                <= data.rows().len(),
            ColumnData::Concat { parts, index } => {
                &&& parts@.len() >= 1
                &&& indexed(parts@, index@)
                &&& forall|i: int|
                    0 <= i < parts@.len() ==> {
                        &&& (#[trigger] parts@[i]).wf()
                        &&& parts@[i].spec_sql_type() == parts@[0].spec_sql_type()
                    }
            },
            _ => true,
        }
    }

    /// A row of a nullable column is null where its flag is set, and else the
    /// row of the column behind it.
    pub proof fn lemma_nullable_row(&self, i: int)
        requires
            self.wf(),
            self is Nullable,
            0 <= i < self.rows().len(),
        ensures
            self.rows().len() == self->Nullable_inner.rows().len(),
            self->nulls@[i] != 0 ==> self.rows()[i] == ValueView::Nullable(
                Either::Left(self->Nullable_inner.spec_sql_type()),
            ),
            self->nulls@[i] == 0 ==> self.rows()[i] == ValueView::Nullable(
                Either::Right(Box::new(self->Nullable_inner.rows()[i])),
            ),
    {
    }

    /// The declared type of well-formed storage is a supported one.
    pub proof fn lemma_supported(&self)
        requires
            self.wf(),
        ensures
            self.spec_sql_type().supported(),
        decreases self,
    {
        match self {
            ColumnData::Nullable { inner, .. } => inner.lemma_supported(),
            ColumnData::Array { inner, .. } => inner.lemma_supported(),
            ColumnData::Chunk { data, .. } => data.lemma_supported(),
            ColumnData::Concat { parts, .. } => parts@[0].lemma_supported(),
            _ => {},
        }
    }

    /// Every row of well-formed storage is a value of the declared type.
    pub proof fn lemma_rows_conform(&self)
        requires
            self.wf(),
        ensures
            forall|i: int|
                0 <= i < self.rows().len() ==> (#[trigger] self.rows()[i]).conforms(
                    self.spec_sql_type(),
                ),
        decreases self,
    {
        let t = self.spec_sql_type();
        match self {
            ColumnData::FixedString { buffer, str_len, rows } => {
                assert forall|i: int| 0 <= i < self.rows().len() implies (
                #[trigger] self.rows()[i]).conforms(t) by {
                    lemma_row_bounds(i, *rows as int, *str_len as int);
                    let row = buffer@.subrange(i * *str_len, (i + 1) * *str_len);
                    assert(self.rows()[i] == ValueView::String(row));
                    assert(row.len() == *str_len);
                }
            },
            ColumnData::Nullable { nulls, inner } => {
                inner.lemma_rows_conform();
                let payload = inner.rows();
                assert forall|i: int| 0 <= i < self.rows().len() implies (
                #[trigger] self.rows()[i]).conforms(t) by {
                    if nulls@[i] == 0 {
                        assert(payload[i].conforms(inner.spec_sql_type()));
                    }
                }
            },
            ColumnData::Array { offsets, inner } => {
                inner.lemma_rows_conform();
                let items = inner.rows();
                assert forall|i: int| 0 <= i < self.rows().len() implies (
                #[trigger] self.rows()[i]).conforms(t) by {
                    let lo = row_start(offsets@, i);
                    let hi = offsets@[i] as int;
                    assert(0 <= lo <= hi <= items.len());
                    let row = items.subrange(lo, hi);
                    assert forall|j: int| 0 <= j < row.len() implies (#[trigger] row[j]).conforms(
                        inner.spec_sql_type(),
                    ) by {
                        assert(row[j] == items[lo + j]);
                    }
                }
            },
            ColumnData::Cast { column, dst } => {
                column.lemma_rows_conform();
                assert forall|i: int| 0 <= i < self.rows().len() implies (
                #[trigger] self.rows()[i]).conforms(t) by {
                    column.rows()[i].lemma_cast_conforms(*dst, column.spec_sql_type());
                }
            },
            ColumnData::Chunk { data, start, end } => {
                data.lemma_rows_conform();
                assert forall|i: int| 0 <= i < self.rows().len() implies (
                #[trigger] self.rows()[i]).conforms(t) by {
                    assert(self.rows()[i] == data.rows()[*start + i]);
                }
            },
            ColumnData::Concat { parts, index } => {
                Self::lemma_joined_conform(parts@, parts@.len());
                assert(self.rows() == joined(parts@, parts@.len()));
                assert(t == parts@[0].spec_sql_type());
                assert forall|i: int| 0 <= i < self.rows().len() implies (
                #[trigger] self.rows()[i]).conforms(t) by {
                    assert(joined(parts@, parts@.len())[i].conforms(t));
                }
            },
            _ => {
                assert forall|i: int| 0 <= i < self.rows().len() implies (
                #[trigger] self.rows()[i]).conforms(t) by {}
            },
        }
    }

    proof fn lemma_joined_conform(parts: Seq<Arc<ColumnData>>, n: nat)
        requires
            1 <= parts.len(),
            n <= parts.len(),
            forall|i: int|
                0 <= i < parts.len() ==> (#[trigger] parts[i]).wf() && parts[i].spec_sql_type()
                    == parts[0].spec_sql_type(),
        ensures
            forall|i: int|
                0 <= i < joined(parts, n).len() ==> (#[trigger] joined(parts, n)[i]).conforms(
                    parts[0].spec_sql_type(),
                ),
        decreases parts, n,
    {
        if n > 0 {
            Self::lemma_joined_conform(parts, (n - 1) as nat);
            parts[n - 1].lemma_rows_conform();
            let before = joined(parts, (n - 1) as nat);
            let last = parts[n - 1].rows();
            assert forall|i: int| 0 <= i < joined(parts, n).len() implies (#[trigger] joined(
                parts,
                n,
            )[i]).conforms(parts[0].spec_sql_type()) by {
                if i < before.len() {
                    assert(joined(parts, n)[i] == before[i]);
                } else {
                    assert(joined(parts, n)[i] == last[i - before.len()]);
                }
            }
        }
    }
}

impl ColumnData {
    /// The declared type.
    pub fn sql_type(&self) -> (r: SqlType)
        ensures
            r == self.spec_sql_type(),
        decreases self,
    {
        match self {
            ColumnData::UInt8(_) => SqlType::UInt8,
            ColumnData::UInt16(_) => SqlType::UInt16,
            ColumnData::UInt32(_) => SqlType::UInt32,
            ColumnData::UInt64(_) => SqlType::UInt64,
            ColumnData::Int8(_) => SqlType::Int8,
            ColumnData::Int16(_) => SqlType::Int16,
            ColumnData::Int32(_) => SqlType::Int32,
            ColumnData::Int64(_) => SqlType::Int64,
            ColumnData::Float32(_) => SqlType::Float32,
            ColumnData::Float64(_) => SqlType::Float64,
            ColumnData::Date(_, _) => SqlType::Date,
            ColumnData::DateTime(_, _) => SqlType::DateTime,
            ColumnData::String(_) => SqlType::String,
            ColumnData::FixedString { str_len, .. } => SqlType::FixedString(*str_len),
            ColumnData::Decimal32 { precision, scale, .. } => SqlType::Decimal(*precision, *scale),
            ColumnData::Decimal64 { precision, scale, .. } => SqlType::Decimal(*precision, *scale),
            ColumnData::Decimal128 { precision, scale, .. } => SqlType::Decimal(
                *precision,
                *scale,
            ),
            ColumnData::Nullable { inner, .. } => SqlType::Nullable(Box::new(inner.sql_type())),
            ColumnData::Array { inner, .. } => SqlType::Array(Box::new(inner.sql_type())),
            ColumnData::Cast { dst, .. } => dst.clone(),
            ColumnData::Chunk { data, .. } => data.sql_type(),
            ColumnData::Concat { parts, .. } => if parts.len() > 0 {
                parts[0].sql_type()
            } else {
                SqlType::UInt8
            },
        }
    }

    /// The time zone that the dates of the storage are meant in, if it holds dates.
    pub fn timezone(&self) -> (r: Option<Tz>)
        ensures
            r == self.spec_timezone(),
        decreases self,
    {
        match self {
            ColumnData::Date(_, tz) => Some(*tz),
            ColumnData::DateTime(_, tz) => Some(*tz),
            ColumnData::Nullable { inner, .. } => inner.timezone(),
            ColumnData::Array { inner, .. } => inner.timezone(),
            ColumnData::Cast { column, .. } => column.timezone(),
            ColumnData::Chunk { data, .. } => data.timezone(),
            ColumnData::Concat { parts, .. } => if parts.len() > 0 {
                parts[0].timezone()
            } else {
                None
            },
            _ => None,
        }
    }

    /// Number of rows.
    pub fn len(&self) -> (r: usize)
        requires
            self.wf(),
        ensures
            r == self.rows().len(),
        decreases self,
    {
        match self {
            ColumnData::UInt8(v) => v.len(),
            ColumnData::UInt16(v) => v.len(),
            ColumnData::UInt32(v) => v.len(),
            ColumnData::UInt64(v) => v.len(),
            ColumnData::Int8(v) => v.len(),
            ColumnData::Int16(v) => v.len(),
            ColumnData::Int32(v) => v.len(),
            ColumnData::Int64(v) => v.len(),
            ColumnData::Float32(v) => v.len(),
            ColumnData::Float64(v) => v.len(),
            ColumnData::Date(v, _) => v.len(),
            ColumnData::DateTime(v, _) => v.len(),
            ColumnData::String(pool) => pool.len(),
            ColumnData::FixedString { rows, .. } => *rows,
            ColumnData::Decimal32 { narrow, .. } => narrow.len(),
            ColumnData::Decimal64 { medium, .. } => medium.len(),
            ColumnData::Decimal128 { wide, .. } => wide.len(),
            ColumnData::Nullable { nulls, .. } => nulls.len(),
            ColumnData::Array { offsets, .. } => offsets.len(),
            ColumnData::Cast { column, .. } => column.len(),
            ColumnData::Chunk { start, end, .. } => *end - *start,
            ColumnData::Concat { parts, index } => {
                proof {
                    lemma_joined_len(parts@, index@, parts@.len());
                }
                index[index.len() - 1]
            },
        }
    }

    /// The value of row `index`.
    #[verifier::loop_isolation(false)]
    pub fn at(&self, index: usize) -> (r: Value)
        requires
            self.wf(),
            index < self.rows().len(),
        ensures
            r@ == self.rows()[index as int],
        decreases self,
    {
        match self {
            ColumnData::UInt8(v) => Value::UInt8(v.at(index)),
            ColumnData::UInt16(v) => Value::UInt16(v.at(index)),
            ColumnData::UInt32(v) => Value::UInt32(v.at(index)),
            ColumnData::UInt64(v) => Value::UInt64(v.at(index)),
            ColumnData::Int8(v) => Value::Int8(v.at(index)),
            ColumnData::Int16(v) => Value::Int16(v.at(index)),
            ColumnData::Int32(v) => Value::Int32(v.at(index)),
            ColumnData::Int64(v) => Value::Int64(v.at(index)),
            ColumnData::Float32(v) => Value::Float32(v.at(index)),
            ColumnData::Float64(v) => Value::Float64(v.at(index)),
            ColumnData::Date(v, _) => Value::Date(v.at(index)),
            ColumnData::DateTime(v, _) => Value::DateTime(v.at(index)),
            ColumnData::String(pool) => Value::String(bytes_clone(pool.get(index))),
            ColumnData::FixedString { buffer, str_len, rows } => {
                let total = buffer.len();
                proof {
                    lemma_row_bounds(index as int, *rows as int, *str_len as int);
                    assert(*rows * *str_len == total);
                }
                let from = index * *str_len;
                Value::String(bytes_slice(buffer, from, from + *str_len))
            },
            ColumnData::Decimal32 { narrow, precision, scale } => Value::Decimal(
                Decimal {
                    underlying: narrow.at(index) as i128,
                    precision: *precision,
                    scale: *scale,
                },
            ),
            ColumnData::Decimal64 { medium, precision, scale } => Value::Decimal(
                Decimal {
                    underlying: medium.at(index) as i128,
                    precision: *precision,
                    scale: *scale,
                },
            ),
            ColumnData::Decimal128 { wide, precision, scale } => Value::Decimal(
                Decimal { underlying: wide.at(index), precision: *precision, scale: *scale },
            ),
            ColumnData::Nullable { nulls, inner } => {
                if nulls[index] != 0 {
                    Value::Nullable(Either::Left(inner.sql_type()))
                } else {
                    Value::Nullable(Either::Right(Box::new(inner.at(index))))
                }
            },
            ColumnData::Array { offsets, inner } => {
                let from: usize = if index == 0 {
                    0
                } else {
                    offsets[index - 1]
                };
                let to: usize = offsets[index];
                assert(from == row_start(offsets@, index as int));
                assert(to <= row_start(offsets@, offsets@.len() as int));
                let mut items: Vec<Value> = Vec::new();
                let mut j: usize = from;
                while j < to
                    invariant
                        from <= j <= to <= inner.rows().len(),
                        items@.len() == j - from,
                        forall|k: int| 0 <= k < j - from ==> items[k]@ == inner.rows()[from + k],
                    decreases to - j,
                {
                    let item = inner.at(j);
                    items.push(item);
                    j += 1;
                }
                let r = Value::Array(inner.sql_type(), items);
                assert(r@->Array_1 =~= inner.rows().subrange(from as int, to as int));
                r
            },
            ColumnData::Cast { column, dst } => column.at(index).cast(dst),
            ColumnData::Chunk { data, start, .. } => data.at(*start + index),
            ColumnData::Concat { parts, index: starts } => {
                proof {
                    lemma_joined_len(parts@, starts@, parts@.len());
                    assert forall|i: int, j: int| 0 <= i <= j < starts@.len() implies starts@[i]
                        <= starts@[j] by {
                        lemma_index_monotone(parts@, starts@, i, j);
                    }
                }
                let part = find_chunk(starts, index);
                proof {
                    lemma_joined_row(parts@, starts@, parts@.len(), part as int, index as int);
                }
                parts[part].at(index - starts[part])
            },
        }
    }
}

/// Copies a vector of positions.
fn positions_clone(a: &Vec<usize>) -> (r: Vec<usize>)
    ensures
        r@ == a@,
{
    let mut r: Vec<usize> = Vec::with_capacity(a.len());
    let mut i: usize = 0;
    while i < a.len()
        invariant
            i <= a.len(),
            r@ == a@.subrange(0, i as int),
        decreases a.len() - i,
    {
        r.push(a[i]);
        assert(r@ =~= a@.subrange(0, i + 1));
        i += 1;
    }
    assert(a@.subrange(0, a.len() as int) =~= a@);
    r
}

impl ColumnData {
    /// Whether the storage holds its rows itself, in every layer: it is no cast,
    /// no window and no concatenation, and wraps none.
    pub open spec fn is_plain(&self) -> bool
        decreases self,
    {
        match self {
            ColumnData::Nullable { inner, .. } => inner.is_plain(),
            ColumnData::Array { inner, .. } => inner.is_plain(),
            ColumnData::Cast { .. } => false,
            ColumnData::Chunk { .. } => false,
            ColumnData::Concat { .. } => false,
            _ => true,
        }
    }

    /// Number of rows of the storage's innermost column: of what all nullable
    /// and array layers wrap.
    pub open spec fn leaf_rows(&self) -> nat
        decreases self,
    {
        match self {
            ColumnData::Nullable { inner, .. } => inner.leaf_rows(),
            ColumnData::Array { inner, .. } => inner.leaf_rows(),
            _ => self.rows().len(),
        }
    }

    /// Whether the machine can still count the rows of the innermost column
    /// once the value is pushed.
    pub open spec fn has_room(&self, v: ValueView) -> bool {
        self.leaf_rows() + growth(self.spec_sql_type(), v.stored(self.spec_sql_type()))
            <= usize::MAX
    }

    /// Number of rows of the storage's innermost column.
    pub fn leaf_len(&self) -> (r: usize)
        requires
            self.wf(),
        ensures
            r == self.leaf_rows(),
        decreases self,
    {
        match self {
            ColumnData::Nullable { inner, .. } => inner.leaf_len(),
            ColumnData::Array { inner, .. } => inner.leaf_len(),
            _ => self.len(),
        }
    }

    /// How many nullable and array layers wrap the storage's innermost column.
    pub open spec fn nesting(&self) -> nat
        decreases self,
    {
        match self {
            ColumnData::Nullable { inner, .. } => inner.nesting() + 1,
            ColumnData::Array { inner, .. } => inner.nesting() + 1,
            _ => 0,
        }
    }

    /// Decides whether the storage holds its rows itself.
    pub fn holds_rows(&self) -> (r: bool)
        ensures
            r == self.is_plain(),
        decreases self,
    {
        match self {
            ColumnData::Nullable { inner, .. } => inner.holds_rows(),
            ColumnData::Array { inner, .. } => inner.holds_rows(),
            ColumnData::Cast { .. } => false,
            ColumnData::Chunk { .. } => false,
            ColumnData::Concat { .. } => false,
            _ => true,
        }
    }

    /// A copy that a push can change without any other holder seeing it: what
    /// the storage holds itself is copied, what it views stays shared.
    #[verifier::loop_isolation(false)]
    pub fn clone_instance(&self) -> (r: ColumnData)
        requires
            self.wf(),
        ensures
            r.wf(),
            r.rows() == self.rows(),
            r.spec_sql_type() == self.spec_sql_type(),
            r.is_plain() == self.is_plain(),
            r.spec_timezone() == self.spec_timezone(),
            r.leaf_rows() == self.leaf_rows(),
        decreases self,
    {
        match self {
            ColumnData::UInt8(v) => ColumnData::UInt8(v.clone_instance()),
            ColumnData::UInt16(v) => ColumnData::UInt16(v.clone_instance()),
            ColumnData::UInt32(v) => ColumnData::UInt32(v.clone_instance()),
            ColumnData::UInt64(v) => ColumnData::UInt64(v.clone_instance()),
            ColumnData::Int8(v) => ColumnData::Int8(v.clone_instance()),
            ColumnData::Int16(v) => ColumnData::Int16(v.clone_instance()),
            ColumnData::Int32(v) => ColumnData::Int32(v.clone_instance()),
            ColumnData::Int64(v) => ColumnData::Int64(v.clone_instance()),
            ColumnData::Float32(v) => ColumnData::Float32(v.clone_instance()),
            ColumnData::Float64(v) => ColumnData::Float64(v.clone_instance()),
            ColumnData::Date(v, tz) => ColumnData::Date(v.clone_instance(), *tz),
            ColumnData::DateTime(v, tz) => ColumnData::DateTime(v.clone_instance(), *tz),
            ColumnData::String(pool) => ColumnData::String(pool.clone_instance()),
            ColumnData::FixedString { buffer, str_len, rows } => {
                let r = ColumnData::FixedString {
                    buffer: bytes_clone(buffer),
                    str_len: *str_len,
                    rows: *rows,
                };
                assert(r.rows() =~= self.rows());
                r
            },
            ColumnData::Decimal32 { narrow, precision, scale } => ColumnData::Decimal32 {
                narrow: narrow.clone_instance(),
                precision: *precision,
                scale: *scale,
            },
            ColumnData::Decimal64 { medium, precision, scale } => ColumnData::Decimal64 {
                medium: medium.clone_instance(),
                precision: *precision,
                scale: *scale,
            },
            ColumnData::Decimal128 { wide, precision, scale } => ColumnData::Decimal128 {
                wide: wide.clone_instance(),
                precision: *precision,
                scale: *scale,
            },
            ColumnData::Nullable { nulls, inner } => {
                let r = ColumnData::Nullable {
                    nulls: bytes_clone(nulls),
                    inner: Box::new(inner.clone_instance()),
                };
                assert(r.rows() =~= self.rows());
                r
            },
            ColumnData::Array { offsets, inner } => {
                let r = ColumnData::Array {
                    offsets: positions_clone(offsets),
                    inner: Box::new(inner.clone_instance()),
                };
                assert(r.rows() =~= self.rows());
                r
            },
            ColumnData::Cast { column, dst } => ColumnData::Cast {
                column: share(column),
                dst: dst.clone(),
            },
            ColumnData::Chunk { data, start, end } => ColumnData::Chunk {
                data: share(data),
                start: *start,
                end: *end,
            },
            ColumnData::Concat { parts, index } => {
                let mut copy: Vec<Arc<ColumnData>> = Vec::with_capacity(parts.len());
                let mut i: usize = 0;
                while i < parts.len()
                    invariant
                        i <= parts.len(),
                        copy@ == parts@.subrange(0, i as int),
                    decreases parts.len() - i,
                {
                    copy.push(share(&parts[i]));
                    assert(copy@ =~= parts@.subrange(0, i + 1));
                    i += 1;
                }
                assert(parts@.subrange(0, parts@.len() as int) =~= parts@);
                ColumnData::Concat { parts: copy, index: positions_clone(index) }
            },
        }
    }
}

impl ColumnData {
    /// Appends a value that conforms to the declared type.
    #[verifier::loop_isolation(false)]
    fn append(&mut self, value: &Value)
        requires
            old(self).wf(),
            old(self).is_plain(),
            value@.conforms(old(self).spec_sql_type()),
            old(self).leaf_rows() + growth(old(self).spec_sql_type(), value@) <= usize::MAX,
        ensures
            final(self).wf(),
            final(self).is_plain(),
            final(self).spec_sql_type() == old(self).spec_sql_type(),
            final(self).rows() == old(self).rows().push(value@),
            final(self).nesting() == old(self).nesting(),
            final(self).spec_timezone() == old(self).spec_timezone(),
            final(self).leaf_rows() == old(self).leaf_rows() + growth(
                old(self).spec_sql_type(),
                value@,
            ),
        decreases old(self).nesting(),
    {
        let ghost before = self.rows();
        match (self, value) {
            (ColumnData::UInt8(v), Value::UInt8(x)) => {
                v.push(*x);
                assert(v@.map_values(|x: u8| ValueView::UInt8(x)) =~= before.push(value@));
            },
            (ColumnData::UInt16(v), Value::UInt16(x)) => {
                v.push(*x);
                assert(v@.map_values(|x: u16| ValueView::UInt16(x)) =~= before.push(value@));
            },
            (ColumnData::UInt32(v), Value::UInt32(x)) => {
                v.push(*x);
                assert(v@.map_values(|x: u32| ValueView::UInt32(x)) =~= before.push(value@));
            },
            (ColumnData::UInt64(v), Value::UInt64(x)) => {
                v.push(*x);
                assert(v@.map_values(|x: u64| ValueView::UInt64(x)) =~= before.push(value@));
            },
            (ColumnData::Int8(v), Value::Int8(x)) => {
                v.push(*x);
                assert(v@.map_values(|x: i8| ValueView::Int8(x)) =~= before.push(value@));
            },
            (ColumnData::Int16(v), Value::Int16(x)) => {
                v.push(*x);
                assert(v@.map_values(|x: i16| ValueView::Int16(x)) =~= before.push(value@));
            },
            (ColumnData::Int32(v), Value::Int32(x)) => {
                v.push(*x);
                assert(v@.map_values(|x: i32| ValueView::Int32(x)) =~= before.push(value@));
            },
            (ColumnData::Int64(v), Value::Int64(x)) => {
                v.push(*x);
                assert(v@.map_values(|x: i64| ValueView::Int64(x)) =~= before.push(value@));
            },
            (ColumnData::Float32(v), Value::Float32(x)) => {
                v.push(*x);
                assert(v@.map_values(|x: u32| ValueView::Float32(x)) =~= before.push(value@));
            },
            (ColumnData::Float64(v), Value::Float64(x)) => {
                v.push(*x);
                assert(v@.map_values(|x: u64| ValueView::Float64(x)) =~= before.push(value@));
            },
            (ColumnData::Date(v, _), Value::Date(x)) => {
                v.push(*x);
                assert(v@.map_values(|x: u16| ValueView::Date(x)) =~= before.push(value@));
            },
            (ColumnData::DateTime(v, _), Value::DateTime(x)) => {
                v.push(*x);
                assert(v@.map_values(|x: u32| ValueView::DateTime(x)) =~= before.push(value@));
            },
            (ColumnData::String(pool), Value::String(bytes)) => {
                pool.push(bytes);
                assert(pool@.map_values(|b: Seq<u8>| ValueView::String(b)) =~= before.push(
                    value@,
                ));
            },
            (ColumnData::FixedString { buffer, str_len, rows }, Value::String(bytes)) => {
                let ghost held = buffer@;
                let ghost count = *rows;
                let mut i: usize = 0;
                while i < bytes.len()
                    invariant
                        i <= bytes.len(),
                        buffer@ == held + bytes@.subrange(0, i as int),
                    decreases bytes.len() - i,
                {
                    buffer.push(bytes[i]);
                    assert(buffer@ =~= held + bytes@.subrange(0, i + 1));
                    i += 1;
                }
                assert(bytes@.subrange(0, bytes@.len() as int) =~= bytes@);
                assert(count == before.len());
                assert((count + 1) * *str_len == count * *str_len + *str_len)
                    by (nonlinear_arith);
                *rows = *rows + 1;
                proof {
                    let after = Seq::new(
                        (count + 1) as nat,
                        |i: int|
                            ValueView::String(buffer@.subrange(i * *str_len, (i + 1) * *str_len)),
                    );
                    assert forall|k: int| 0 <= k < count + 1 implies after[k] == before.push(
                        value@,
                    )[k] by {
                        lemma_row_bounds(k, count + 1, *str_len as int);
                        if k < count {
                            lemma_row_bounds(k, count as int, *str_len as int);
                            assert(buffer@.subrange(k * *str_len, (k + 1) * *str_len)
                                =~= held.subrange(k * *str_len, (k + 1) * *str_len));
                        } else {
                            assert(buffer@.subrange(k * *str_len, (k + 1) * *str_len)
                                =~= bytes@);
                        }
                    }
                    assert(after =~= before.push(value@));
                }
            },
            (ColumnData::Decimal32 { narrow, precision, scale }, Value::Decimal(d)) => {
                narrow.push(d.underlying as i32);
                assert(narrow@.map_values(
                    |x: i32|
                        ValueView::Decimal(
                            Decimal { underlying: x as i128, precision: *precision, scale: *scale },
                        ),
                ) =~= before.push(value@));
            },
            (ColumnData::Decimal64 { medium, precision, scale }, Value::Decimal(d)) => {
                medium.push(d.underlying as i64);
                assert(medium@.map_values(
                    |x: i64|
                        ValueView::Decimal(
                            Decimal { underlying: x as i128, precision: *precision, scale: *scale },
                        ),
                ) =~= before.push(value@));
            },
            (ColumnData::Decimal128 { wide, precision, scale }, Value::Decimal(d)) => {
                wide.push(d.underlying);
                assert(wide@.map_values(
                    |x: i128|
                        ValueView::Decimal(
                            Decimal { underlying: x, precision: *precision, scale: *scale },
                        ),
                ) =~= before.push(value@));
            },
            (ColumnData::Nullable { nulls, inner }, Value::Nullable(Either::Left(_))) => {
                let ghost flags = nulls@;
                let ghost payload = inner.rows();
                let filler = Value::default_for(&inner.sql_type());
                proof {
                    inner.lemma_supported();
                    ValueView::lemma_default_conforms(inner.spec_sql_type());
                }
                nulls.push(1);
                inner.append(&filler);
                assert(Seq::new(
                    nulls@.len(),
                    |i: int|
                        if nulls@[i] != 0 {
                            ValueView::Nullable(Either::Left(inner.spec_sql_type()))
                        } else {
                            ValueView::Nullable(Either::Right(Box::new(inner.rows()[i])))
                        },
                ) =~= before.push(value@));
            },
            (ColumnData::Nullable { nulls, inner }, Value::Nullable(Either::Right(wrapped))) => {
                nulls.push(0);
                inner.append(&**wrapped);
                assert(Seq::new(
                    nulls@.len(),
                    |i: int|
                        if nulls@[i] != 0 {
                            ValueView::Nullable(Either::Left(inner.spec_sql_type()))
                        } else {
                            ValueView::Nullable(Either::Right(Box::new(inner.rows()[i])))
                        },
                ) =~= before.push(value@));
            },
            (ColumnData::Array { offsets, inner }, Value::Array(_, items)) => {
                let ghost ends = offsets@;
                let ghost flat = inner.rows();
                let ghost added = value@->Array_1;
                let mut i: usize = 0;
                while i < items.len()
                    invariant
                        i <= items.len(),
                        inner.wf(),
                        inner.is_plain(),
                        inner.spec_sql_type() == old(self)->Array_inner.spec_sql_type(),
                        inner.nesting() == old(self)->Array_inner.nesting(),
                        inner.spec_timezone() == old(self)->Array_inner.spec_timezone(),
                        inner.leaf_rows() == old(self)->Array_inner.leaf_rows() + growth_of_all(
                            inner.spec_sql_type(),
                            added,
                            i as nat,
                        ),
                        inner.rows() == flat + added.subrange(0, i as int),
                    decreases items.len() - i,
                {
                    assert(added[i as int] == items[i as int]@);
                    proof {
                        lemma_growth_of_all(
                            inner.spec_sql_type(),
                            added,
                            (i + 1) as nat,
                            added.len(),
                        );
                    }
                    inner.append(&items[i]);
                    assert(inner.rows() =~= flat + added.subrange(0, i + 1));
                    i += 1;
                }
                assert(added.subrange(0, added.len() as int) =~= added);
                offsets.push(inner.len());
                proof {
                    let t = inner.spec_sql_type();
                    let after = Seq::new(
                        offsets@.len(),
                        |i: int|
                            ValueView::Array(
                                t,
                                inner.rows().subrange(row_start(offsets@, i), offsets@[i] as int),
                            ),
                    );
                    assert forall|k: int| 0 <= k < offsets@.len() implies after[k] == before.push(
                        value@,
                    )[k] by {
                        if k < ends.len() {
                            assert(row_start(offsets@, k) == row_start(ends, k));
                            assert(0 <= row_start(ends, k) <= ends[k] <= flat.len());
                            assert(inner.rows().subrange(row_start(offsets@, k), offsets@[k] as int)
                                =~= flat.subrange(row_start(ends, k), ends[k] as int));
                        } else {
                            assert(row_start(offsets@, k) == flat.len());
                            assert(inner.rows().subrange(row_start(offsets@, k), offsets@[k] as int)
                                =~= added);
                        }
                    }
                    assert(after =~= before.push(value@));
                }
            },
            _ => {
                assert(false);
            },
        }
    }

    /// Appends one row. The storage must hold its rows itself and accept the
    /// value; the row is the value as the declared type stores it. A value of
    /// another type is an invalid type; one of the declared type that the
    /// storage cannot hold is out of range. A value by which the innermost column
    /// would hold more rows than the machine counts is an overflow.
    pub fn push(&mut self, value: Value) -> (r: Result<(), Error>)
        requires
            old(self).wf(),
        ensures
            final(self).wf(),
            final(self).spec_sql_type() == old(self).spec_sql_type(),
            final(self).is_plain() == old(self).is_plain(),
            final(self).spec_timezone() == old(self).spec_timezone(),
            match r {
                Ok(_) => {
                    &&& old(self).is_plain()
                    &&& value@.accepted(old(self).spec_sql_type())
                    &&& old(self).has_room(value@)
                    &&& final(self).rows() == old(self).rows().push(
                        value@.stored(old(self).spec_sql_type()),
                    )
                },
                Err(e) => {
                    &&& final(self).rows() == old(self).rows()
                    &&& if !old(self).is_plain() {
                        e == Error::FromSql(FromSqlError::UnsupportedOperation)
                    } else if value@.accepted(old(self).spec_sql_type()) {
                        &&& !old(self).has_room(value@)
                        &&& e == Error::Driver(DriverError::Overflow)
                    } else {
                        &&& if value@.type_of() == old(self).spec_sql_type() {
                            e == Error::FromSql(FromSqlError::OutOfRange)
                        } else {
                            &&& e matches Error::FromSql(FromSqlError::InvalidType { src, dst })
                            &&& src@ == value@.type_of().name()
                            &&& dst@ == old(self).spec_sql_type().name()
                        }
                    }
                },
            },
    {
        if !self.holds_rows() {
            return Err(Error::FromSql(FromSqlError::UnsupportedOperation));
        }
        let t = self.sql_type();
        if !value.is_accepted(&t) {
            let offered = value.sql_type();
            if offered == t {
                return Err(Error::FromSql(FromSqlError::OutOfRange));
            }
            return Err(
                Error::FromSql(
                    FromSqlError::InvalidType { src: offered.to_string(), dst: t.to_string() },
                ),
            );
        }
        let row = value.to_stored(&t);
        proof {
            value@.lemma_stored_conforms(t);
        }
        let held = self.leaf_len();
        match growth_of(&t, &row) {
            Some(more) => {
                if more > usize::MAX - held {
                    return Err(Error::Driver(DriverError::Overflow));
                }
            },
            None => {
                return Err(Error::Driver(DriverError::Overflow));
            },
        }
        self.append(&row);
        Ok(())
    }
}

impl ColumnData {
    /// Storage of type `t` that holds no row yet. Dates take the time zone `tz`.
    pub fn empty(t: &SqlType, tz: Tz) -> (r: ColumnData)
        requires
            t.supported(),
        ensures
            r.wf(),
            r.is_plain(),
            r.spec_sql_type() == *t,
            r.spec_timezone() == zone_of(*t, tz),
            r.rows() == Seq::<ValueView>::empty(),
        decreases t,
    {
        let r = match t {
            SqlType::UInt8 => ColumnData::UInt8(VectorColumnData::new()),
            SqlType::UInt16 => ColumnData::UInt16(VectorColumnData::new()),
            SqlType::UInt32 => ColumnData::UInt32(VectorColumnData::new()),
            SqlType::UInt64 => ColumnData::UInt64(VectorColumnData::new()),
            SqlType::Int8 => ColumnData::Int8(VectorColumnData::new()),
            SqlType::Int16 => ColumnData::Int16(VectorColumnData::new()),
            SqlType::Int32 => ColumnData::Int32(VectorColumnData::new()),
            SqlType::Int64 => ColumnData::Int64(VectorColumnData::new()),
            SqlType::Float32 => ColumnData::Float32(VectorColumnData::new()),
            SqlType::Float64 => ColumnData::Float64(VectorColumnData::new()),
            SqlType::String => ColumnData::String(StringPool::new()),
            SqlType::FixedString(n) => ColumnData::FixedString {
                buffer: Vec::new(),
                str_len: *n,
                rows: 0,
            },
            SqlType::Date => ColumnData::Date(VectorColumnData::new(), tz),
            SqlType::DateTime => ColumnData::DateTime(VectorColumnData::new(), tz),
            SqlType::Decimal(precision, scale) => match NoBits::from_precision(*precision) {
                Some(NoBits::N32) => ColumnData::Decimal32 {
                    narrow: VectorColumnData::new(),
                    precision: *precision,
                    scale: *scale,
                },
                Some(NoBits::N64) => ColumnData::Decimal64 {
                    medium: VectorColumnData::new(),
                    precision: *precision,
                    scale: *scale,
                },
                _ => ColumnData::Decimal128 {
                    wide: VectorColumnData::new(),
                    precision: *precision,
                    scale: *scale,
                },
            },
            SqlType::Nullable(inner) => ColumnData::Nullable {
                nulls: Vec::new(),
                inner: Box::new(Self::empty(&**inner, tz)),
            },
            SqlType::Array(inner) => ColumnData::Array {
                offsets: Vec::new(),
                inner: Box::new(Self::empty(&**inner, tz)),
            },
        };
        assert(r.rows() =~= Seq::<ValueView>::empty());
        proof {
            if let SqlType::FixedString(n) = t {
                assert(0 * *n == 0) by (nonlinear_arith);
            }
        }
        r
    }
}

/// Whether position `k` of the offsets is no lower than the one before it.
pub open spec fn climbs(offsets: Seq<usize>, k: int) -> bool {
    offsets[k - 1] <= offsets[k]
}

/// Offsets that never step down are in order.
proof fn lemma_climbing(offsets: Seq<usize>, a: int, b: int)
    requires
        0 <= a <= b < offsets.len(),
        forall|k: int| 0 < k < offsets.len() ==> #[trigger] climbs(offsets, k),
    ensures
        offsets[a] <= offsets[b],
    decreases b - a,
{
    if a < b {
        lemma_climbing(offsets, a, b - 1);
        assert(climbs(offsets, b));
    }
}

/// Decides whether the offsets are in order.
fn in_order(offsets: &Vec<usize>) -> (r: bool)
    ensures
        r == forall|i: int, j: int| 0 <= i <= j < offsets@.len() ==> offsets@[i] <= offsets@[j],
{
    let mut k: usize = 1;
    while k < offsets.len()
        invariant
            1 <= k,
            forall|e: int| 0 < e < k && e < offsets@.len() ==> #[trigger] climbs(offsets@, e),
        decreases offsets.len() - k,
    {
        if offsets[k - 1] > offsets[k] {
            return false;
        }
        assert(climbs(offsets@, k as int));
        k += 1;
    }
    assert forall|i: int, j: int| 0 <= i <= j < offsets@.len() implies offsets@[i]
        <= offsets@[j] by {
        lemma_climbing(offsets@, i, j);
    }
    true
}

impl ColumnData {
    /// Decides whether the storage is well formed: whether its parts agree
    /// with one another as every operation on it requires.
    pub fn is_well_formed(&self) -> (r: bool)
        ensures
            r == self.wf(),
        decreases self, 1nat,
    {
        match self {
            ColumnData::String(pool) => pool.is_well_formed(),
            ColumnData::FixedString { buffer, str_len, rows } => {
                let held = buffer.len();
                let r = match rows.checked_mul(*str_len) {
                    Some(bytes) => bytes == held,
                    None => false,
                };
                assert(r == self.wf());
                r
            },
            ColumnData::Decimal32 { precision, .. } => matches!(
                NoBits::from_precision(*precision),
                Some(NoBits::N32)
            ),
            ColumnData::Decimal64 { precision, .. } => matches!(
                NoBits::from_precision(*precision),
                Some(NoBits::N64)
            ),
            ColumnData::Decimal128 { precision, .. } => matches!(
                NoBits::from_precision(*precision),
                Some(NoBits::N128)
            ),
            ColumnData::Nullable { nulls, inner } => {
                let r = inner.is_well_formed() && nulls.len() == inner.len();
                assert(r == self.wf());
                r
            },
            ColumnData::Array { offsets, inner } => {
                if !inner.is_well_formed() || !in_order(offsets) {
                    return false;
                }
                let items = inner.len();
                let r = if offsets.len() == 0 {
                    items == 0
                } else {
                    offsets[offsets.len() - 1] == items
                };
                assert(row_start(offsets@, offsets@.len() as int) == if offsets@.len() == 0 {
                    0int
                } else {
                    offsets@[offsets@.len() - 1] as int
                });
                assert(r == self.wf());
                r
            },
            ColumnData::Cast { column, dst } => {
                if !column.is_well_formed() {
                    return false;
                }
                let src = column.sql_type();
                let r = SqlType::can_cast(dst, &src);
                assert(r == self.wf());
                r
            },
            ColumnData::Chunk { data, start, end } => {
                let r = data.is_well_formed() && *start <= *end && *end <= data.len();
                assert(r == self.wf());
                r
            },
            ColumnData::Concat { .. } => self.parts_are_well_formed(),
            _ => true,
        }
    }

    /// Decides whether a concatenation is well formed.
    #[verifier::loop_isolation(false)]
    fn parts_are_well_formed(&self) -> (r: bool)
        requires
            self is Concat,
        ensures
            r == self.wf(),
        decreases self, 0nat,
    {
        match self {
            ColumnData::Concat { parts, index } => {
                let n = parts.len();
                if n == 0 || index.len() == 0 || index.len() - 1 != n || index[0] != 0 {
                    return false;
                }
                let declared = parts[0].sql_type();
                let mut i: usize = 0;
                while i < n
                    invariant
                        i <= n,
                        forall|j: int|
                            0 <= j < i ==> (#[trigger] parts@[j]).wf() && parts@[j].spec_sql_type()
                                == declared && index@[j + 1] == index@[j] + parts@[j].rows().len(),
                    decreases n - i,
                {
                    if !parts[i].is_well_formed() {
                        return false;
                    }
                    if parts[i].sql_type() != declared {
                        return false;
                    }
                    match index[i].checked_add(parts[i].len()) {
                        Some(next) => {
                            if next != index[i + 1] {
                                assert(index@[i + 1] != index@[i as int] + parts@[i as int].rows().len());
                                return false;
                            }
                        },
                        None => {
                            assert(index@[i + 1] != index@[i as int] + parts@[i as int].rows().len());
                            return false;
                        },
                    }
                    i += 1;
                }
                true
            },
            _ => false,
        }
    }
}

/// Row `i` of `rows` rows of `width` bytes lies within the buffer.
pub proof fn lemma_row_bounds(i: int, rows: int, width: int)
    requires
        0 <= i < rows,
        0 <= width,
    ensures
        0 <= i * width <= (i + 1) * width <= rows * width,
        (i + 1) * width == i * width + width,
{
    assert(0 <= i * width <= (i + 1) * width <= rows * width) by (nonlinear_arith)
        requires
            0 <= i < rows,
            0 <= width,
    ;
    assert((i + 1) * width == i * width + width) by (nonlinear_arith);
}

} // verus!
