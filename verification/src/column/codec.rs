//! Storage to wire bytes and back.

use vstd::prelude::*;
use chrono_tz::Tz;
use crate::binary::{get_le, get_string, le_bytes, lemma_le_bytes_of_value, lemma_pow256_values, put_string};
use crate::column::numeric::VectorColumnData;
use crate::column::string_pool::StringPool;
use crate::errors::{DriverError, Error};
use crate::column::column_data::{
    find_chunk, lemma_index_monotone, lemma_joined_len, lemma_joined_row,
    lemma_row_bounds, row_start, zone_of, ColumnData,
};
use crate::column::numeric::{flat, Primitive};
use crate::decimal::{Decimal, NoBits};
use crate::types::SqlType;
use crate::value::{views, Value, ValueView};
use crate::wire::{
    encode_values, lemma_parse_strings_fails, lemma_rows_bytes_concat,
    lemma_rows_bytes_flat, offset_at, offset_before, offsets_fault, parse_body, steps_down, parse_fixed, parse_strings,
    row_bytes, row_width, rows_bytes, wire_body,
};

verus! {

/// Appends the bytes `[from, to)` of a buffer.
fn put_bytes(out: &mut Vec<u8>, buffer: &Vec<u8>, from: usize, to: usize)
    requires
        from <= to <= buffer@.len(),
    ensures
        final(out)@ == old(out)@ + buffer@.subrange(from as int, to as int),
{
    let mut i: usize = from;
    assert(old(out)@ + buffer@.subrange(from as int, from as int) =~= old(out)@);
    while i < to
        invariant
            from <= i <= to <= buffer@.len(),
            out@ == old(out)@ + buffer@.subrange(from as int, i as int),
        decreases to - i,
    {
        out.push(buffer[i]);
        assert(out@ =~= old(out)@ + buffer@.subrange(from as int, i + 1));
        i += 1;
    }
}

/// Appends the strings `[start, start + count)` of a pool, each with its length.
fn save_strings(pool: &StringPool, out: &mut Vec<u8>, start: usize, count: usize)
    requires
        pool.wf(),
        start + count <= pool@.len(),
    ensures
        final(out)@ == old(out)@ + rows_bytes(
            SqlType::String,
            pool@.subrange(start as int, start + count).map_values(
                |b: Seq<u8>| ValueView::String(b),
            ),
        ),
{
    let ghost t = SqlType::String;
    let ghost sent = pool@.subrange(start as int, start + count).map_values(
        |b: Seq<u8>| ValueView::String(b),
    );
    let all = pool.len();
    let mut i: usize = 0;
    assert(sent.subrange(0, 0) =~= Seq::<ValueView>::empty());
    assert(old(out)@ + Seq::<u8>::empty() =~= old(out)@);
    while i < count
        invariant
            i <= count,
            pool.wf(),
            start + count <= all == pool@.len(),
            sent == pool@.subrange(start as int, start + count).map_values(
                |b: Seq<u8>| ValueView::String(b),
            ),
            out@ == old(out)@ + rows_bytes(SqlType::String, sent.subrange(0, i as int)),
        decreases count - i,
    {
        let ghost next = sent.subrange(0, i + 1);
        assert(next.drop_last() =~= sent.subrange(0, i as int));
        assert(next.last() == ValueView::String(pool@[start + i]));
        put_string(out, pool.get(start + i).as_slice());
        assert(out@ =~= old(out)@ + rows_bytes(SqlType::String, next));
        i += 1;
    }
    assert(sent.subrange(0, count as int) =~= sent);
}

impl SqlType {
    /// Whether the rows of the type stand one after the other on the wire.
    pub open spec fn row_wise(&self) -> bool {
        !(self is Nullable) && !(self is Array)
    }

    /// Decides whether the rows of the type stand one after the other on the wire.
    pub fn is_row_wise(&self) -> (r: bool)
        ensures
            r == self.row_wise(),
    {
        match self {
            SqlType::Nullable(_) => false,
            SqlType::Array(_) => false,
            _ => true,
        }
    }
}

impl ColumnData {
    /// The values of the rows `[start, start + count)`.
    pub fn collect(&self, start: usize, count: usize) -> (r: Vec<Value>)
        requires
            self.wf(),
            start + count <= self.rows().len(),
        ensures
            r@.len() == count,
            views(r@) == self.rows().subrange(start as int, start + count),
    {
        let n = self.len();
        let mut values: Vec<Value> = Vec::with_capacity(count);
        let mut i: usize = 0;
        while i < count
            invariant
                i <= count,
                self.wf(),
                start + count <= n == self.rows().len(),
                values@.len() == i,
                forall|j: int| 0 <= j < i ==> (#[trigger] values@[j])@ == self.rows()[start + j],
            decreases count - i,
        {
            values.push(self.at(start + i));
            i += 1;
        }
        assert(views(values@) =~= self.rows().subrange(start as int, start + count));
        values
    }

    /// Appends the wire bytes of the rows `[start, start + count)`.
    pub fn save(&self, out: &mut Vec<u8>, start: usize, count: usize)
        requires
            self.wf(),
            start + count <= self.rows().len(),
        ensures
            final(out)@ == old(out)@ + wire_body(
                self.spec_sql_type(),
                self.rows().subrange(start as int, start + count),
            ),
        decreases self, 1nat,
    {
        let ghost t = self.spec_sql_type();
        let ghost sent = self.rows().subrange(start as int, start + count);
        let all = self.len();
        match self {
            ColumnData::UInt8(v) => {
                v.save(out, start, count);
                proof {
                    let f = |x: u8| ValueView::UInt8(x);
                    lemma_rows_bytes_flat(t, v@.subrange(start as int, start + count), f);
                    assert(sent =~= v@.subrange(start as int, start + count).map_values(f));
                }
            },
            ColumnData::UInt16(v) => {
                v.save(out, start, count);
                proof {
                    let f = |x: u16| ValueView::UInt16(x);
                    lemma_rows_bytes_flat(t, v@.subrange(start as int, start + count), f);
                    assert(sent =~= v@.subrange(start as int, start + count).map_values(f));
                }
            },
            ColumnData::UInt32(v) => {
                v.save(out, start, count);
                proof {
                    let f = |x: u32| ValueView::UInt32(x);
                    lemma_rows_bytes_flat(t, v@.subrange(start as int, start + count), f);
                    assert(sent =~= v@.subrange(start as int, start + count).map_values(f));
                }
            },
            ColumnData::UInt64(v) => {
                v.save(out, start, count);
                proof {
                    let f = |x: u64| ValueView::UInt64(x);
                    lemma_rows_bytes_flat(t, v@.subrange(start as int, start + count), f);
                    assert(sent =~= v@.subrange(start as int, start + count).map_values(f));
                }
            },
            ColumnData::Int8(v) => {
                v.save(out, start, count);
                proof {
                    let f = |x: i8| ValueView::Int8(x);
                    lemma_rows_bytes_flat(t, v@.subrange(start as int, start + count), f);
                    assert(sent =~= v@.subrange(start as int, start + count).map_values(f));
                }
            },
            ColumnData::Int16(v) => {
                v.save(out, start, count);
                proof {
                    let f = |x: i16| ValueView::Int16(x);
                    lemma_rows_bytes_flat(t, v@.subrange(start as int, start + count), f);
                    assert(sent =~= v@.subrange(start as int, start + count).map_values(f));
                }
            },
            ColumnData::Int32(v) => {
                v.save(out, start, count);
                proof {
                    let f = |x: i32| ValueView::Int32(x);
                    lemma_rows_bytes_flat(t, v@.subrange(start as int, start + count), f);
                    assert(sent =~= v@.subrange(start as int, start + count).map_values(f));
                }
            },
            ColumnData::Int64(v) => {
                v.save(out, start, count);
                proof {
                    let f = |x: i64| ValueView::Int64(x);
                    lemma_rows_bytes_flat(t, v@.subrange(start as int, start + count), f);
                    assert(sent =~= v@.subrange(start as int, start + count).map_values(f));
                }
            },
            ColumnData::Float32(v) => {
                v.save(out, start, count);
                proof {
                    let f = |x: u32| ValueView::Float32(x);
                    lemma_rows_bytes_flat(t, v@.subrange(start as int, start + count), f);
                    assert(sent =~= v@.subrange(start as int, start + count).map_values(f));
                }
            },
            ColumnData::Float64(v) => {
                v.save(out, start, count);
                proof {
                    let f = |x: u64| ValueView::Float64(x);
                    lemma_rows_bytes_flat(t, v@.subrange(start as int, start + count), f);
                    assert(sent =~= v@.subrange(start as int, start + count).map_values(f));
                }
            },
            ColumnData::Date(v, _) => {
                v.save(out, start, count);
                proof {
                    let f = |x: u16| ValueView::Date(x);
                    lemma_rows_bytes_flat(t, v@.subrange(start as int, start + count), f);
                    assert(sent =~= v@.subrange(start as int, start + count).map_values(f));
                }
            },
            ColumnData::DateTime(v, _) => {
                v.save(out, start, count);
                proof {
                    let f = |x: u32| ValueView::DateTime(x);
                    lemma_rows_bytes_flat(t, v@.subrange(start as int, start + count), f);
                    assert(sent =~= v@.subrange(start as int, start + count).map_values(f));
                }
            },
            ColumnData::String(pool) => {
                save_strings(pool, out, start, count);
                assert(sent =~= pool@.subrange(start as int, start + count).map_values(
                    |b: Seq<u8>| ValueView::String(b),
                ));
            },
            ColumnData::FixedString { .. } => {
                self.save_fixed_strings(out, start, count);
            },
            ColumnData::Decimal32 { narrow, precision, scale } => {
                narrow.save(out, start, count);
                proof {
                    let f = |x: i32|
                        ValueView::Decimal(
                            Decimal { underlying: x as i128, precision: *precision, scale: *scale },
                        );
                    assert forall|k: i32| row_bytes(t, #[trigger] f(k)) == le_bytes(
                        k.raw(),
                        i32::width(),
                    ) by {
                        assert((k as i128) as i32 == k);
                    }
                    lemma_rows_bytes_flat(t, narrow@.subrange(start as int, start + count), f);
                    assert(sent =~= narrow@.subrange(start as int, start + count).map_values(f));
                }
            },
            ColumnData::Decimal64 { medium, precision, scale } => {
                medium.save(out, start, count);
                proof {
                    let f = |x: i64|
                        ValueView::Decimal(
                            Decimal { underlying: x as i128, precision: *precision, scale: *scale },
                        );
                    assert forall|k: i64| row_bytes(t, #[trigger] f(k)) == le_bytes(
                        k.raw(),
                        i64::width(),
                    ) by {
                        assert((k as i128) as i64 == k);
                    }
                    lemma_rows_bytes_flat(t, medium@.subrange(start as int, start + count), f);
                    assert(sent =~= medium@.subrange(start as int, start + count).map_values(f));
                }
            },
            ColumnData::Decimal128 { wide, precision, scale } => {
                wide.save(out, start, count);
                proof {
                    let f = |x: i128|
                        ValueView::Decimal(
                            Decimal { underlying: x, precision: *precision, scale: *scale },
                        );
                    lemma_rows_bytes_flat(t, wide@.subrange(start as int, start + count), f);
                    assert(sent =~= wide@.subrange(start as int, start + count).map_values(f));
                }
            },
            ColumnData::Chunk { data, start: first, .. } => {
                assert(sent =~= data.rows().subrange(*first + start, *first + start + count));
                data.save(out, *first + start, count);
            },
            ColumnData::Concat { .. } => {
                if self.sql_type().is_row_wise() {
                    self.save_parts(out, start, count);
                } else {
                    self.save_values(out, start, count);
                }
            },
            _ => {
                self.save_values(out, start, count);
            },
        }
    }

    /// Appends the rows `[start, start + count)` of fixed strings: their bytes
    /// as the buffer holds them.
    fn save_fixed_strings(&self, out: &mut Vec<u8>, start: usize, count: usize)
        requires
            self.wf(),
            self is FixedString,
            start + count <= self.rows().len(),
        ensures
            final(out)@ == old(out)@ + wire_body(
                self.spec_sql_type(),
                self.rows().subrange(start as int, start + count),
            ),
    {
        let ghost t = self.spec_sql_type();
        let ghost sent = self.rows().subrange(start as int, start + count);
        match self {
            ColumnData::FixedString { buffer, str_len, rows } => {
                let total = buffer.len();
                let mut i: usize = 0;
                assert(sent.subrange(0, 0) =~= Seq::<ValueView>::empty());
                assert(old(out)@ + Seq::<u8>::empty() =~= old(out)@);
                while i < count
                    invariant
                        i <= count,
                        start + count <= *rows,
                        total == buffer@.len() == *rows * *str_len,
                        t == SqlType::FixedString(*str_len),
                        sent == Seq::new(
                            count as nat,
                            |k: int|
                                ValueView::String(
                                    buffer@.subrange((start + k) * *str_len, (start + k + 1) * *str_len),
                                ),
                        ),
                        out@ == old(out)@ + rows_bytes(t, sent.subrange(0, i as int)),
                    decreases count - i,
                {
                    let ghost next = sent.subrange(0, i + 1);
                    proof {
                        lemma_row_bounds(start + i, *rows as int, *str_len as int);
                    }
                    let from = (start + i) * *str_len;
                    assert(next.drop_last() =~= sent.subrange(0, i as int));
                    assert(next.last() == ValueView::String(
                        buffer@.subrange(from as int, from + *str_len),
                    ));
                    put_bytes(out, buffer, from, from + *str_len);
                    assert(out@ =~= old(out)@ + rows_bytes(t, next));
                    i += 1;
                }
                assert(sent.subrange(0, count as int) =~= sent);
            },
            _ => {},
        }
    }

    /// Appends the rows `[start, start + count)` of a concatenation whose rows
    /// stand one after the other on the wire: from each part that the range
    /// meets, the rows that it meets, in order.
    fn save_parts(&self, out: &mut Vec<u8>, start: usize, count: usize)
        requires
            self.wf(),
            self is Concat,
            self.spec_sql_type().row_wise(),
            start + count <= self.rows().len(),
        ensures
            final(out)@ == old(out)@ + wire_body(
                self.spec_sql_type(),
                self.rows().subrange(start as int, start + count),
            ),
        decreases self, 0nat,
    {
        let ghost t = self.spec_sql_type();
        let ghost sent = self.rows().subrange(start as int, start + count);
        match self {
            ColumnData::Concat { parts, index } => {
                proof {
                    lemma_joined_len(parts@, index@, parts@.len());
                    assert forall|i: int, j: int| 0 <= i <= j < index@.len() implies index@[i]
                        <= index@[j] by {
                        lemma_index_monotone(parts@, index@, i, j);
                    }
                }
                let brackets = index.len();
                let mut done: usize = 0;
                assert(sent.subrange(0, 0) =~= Seq::<ValueView>::empty());
                assert(old(out)@ + Seq::<u8>::empty() =~= old(out)@);
                while done < count
                    invariant
                        done <= count,
                        self.wf(),
                        *self == (ColumnData::Concat { parts: *parts, index: *index }),
                        t == self.spec_sql_type(),
                        t.row_wise(),
                        brackets == index@.len() == parts@.len() + 1,
                        index@[0] == 0,
                        start + count <= index@[brackets - 1] == self.rows().len(),
                        forall|i: int, j: int| 0 <= i <= j < index@.len() ==> index@[i] <= index@[j],
                        sent == self.rows().subrange(start as int, start + count),
                        out@ == old(out)@ + rows_bytes(t, sent.subrange(0, done as int)),
                    decreases count - done,
                {
                    let row = start + done;
                    let part = find_chunk(index, row);
                    let local = row - index[part];
                    let here = index[part + 1] - row;
                    let n = if here < count - done {
                        here
                    } else {
                        count - done
                    };
                    let ghost piece = parts@[part as int].rows().subrange(
                        local as int,
                        local + n,
                    );
                    proof {
                        assert(parts@[part as int].wf());
                        assert(index@[part + 1] == index@[part as int] + parts@[part as int].rows().len());
                        assert forall|k: int| 0 <= k < n implies sent[done + k] == piece[k] by {
                            lemma_joined_row(parts@, index@, parts@.len(), part as int, row + k);
                        }
                        assert(sent.subrange(0, done + n) =~= sent.subrange(0, done as int) + piece);
                        lemma_rows_bytes_concat(t, sent.subrange(0, done as int), piece);
                    }
                    parts[part].save(out, local, n);
                    assert(out@ =~= old(out)@ + rows_bytes(t, sent.subrange(0, done + n)));
                    done = done + n;
                }
                assert(sent.subrange(0, count as int) =~= sent);
            },
            _ => {},
        }
    }

    /// Appends the wire bytes of the rows `[start, start + count)`, value by value.
    fn save_values(&self, out: &mut Vec<u8>, start: usize, count: usize)
        requires
            self.wf(),
            start + count <= self.rows().len(),
        ensures
            final(out)@ == old(out)@ + wire_body(
                self.spec_sql_type(),
                self.rows().subrange(start as int, start + count),
            ),
    {
        let values = self.collect(start, count);
        let t = self.sql_type();
        proof {
            self.lemma_supported();
            self.lemma_rows_conform();
            assert forall|i: int| 0 <= i < values@.len() implies (#[trigger] values@[i])@.conforms(
                t,
            ) by {
                assert(views(values@)[i] == self.rows()[start + i]);
            }
        }
        encode_values(out, &t, &values);
    }
}

/// Copies the bytes `[from, to)` of a slice.
fn copy_range(bytes: &[u8], from: usize, to: usize) -> (r: Vec<u8>)
    requires
        from <= to <= bytes@.len(),
    ensures
        r@ == bytes@.subrange(from as int, to as int),
{
    let mut r: Vec<u8> = Vec::with_capacity(to - from);
    let mut i: usize = from;
    while i < to
        invariant
            from <= i <= to <= bytes@.len(),
            r@ == bytes@.subrange(from as int, i as int),
        decreases to - i,
    {
        r.push(bytes[i]);
        assert(r@ =~= bytes@.subrange(from as int, i + 1));
        i += 1;
    }
    r
}

impl ColumnData {
    /// Reads `size` rows of a column of type `t` from `bytes` at `pos`; gives
    /// the storage and the position behind the rows. Dates take the time zone `tz`.
    pub fn load(bytes: &[u8], pos: usize, t: &SqlType, size: usize, tz: Tz) -> (r: Result<
        (ColumnData, usize),
        Error,
    >)
        requires
            pos <= bytes@.len(),
            t.supported(),
        ensures
            match (r, parse_body(*t, size as nat, bytes@.skip(pos as int))) {
                (Ok((column, end)), Ok((rows, used))) => {
                    &&& column.wf()
                    &&& column.is_plain()
                    &&& column.spec_sql_type() == *t
                    &&& column.spec_timezone() == zone_of(*t, tz)
                    &&& column.rows() == rows
                    &&& rows.len() == size
                    &&& end == pos + used
                    &&& end <= bytes@.len()
                },
                (Err(e), Err(f)) => e == Error::Driver(f),
                _ => false,
            },
        decreases t, 0nat,
    {
        match t {
            SqlType::String => match load_strings(bytes, pos, size) {
                Ok((pool, end)) => Ok((ColumnData::String(pool), end)),
                Err(e) => Err(e),
            },
            SqlType::FixedString(n) => load_fixed_string(bytes, pos, *n, size),
            SqlType::Decimal(precision, scale) => load_decimal(
                bytes,
                pos,
                *precision,
                *scale,
                size,
            ),
            SqlType::Nullable(inner) => Self::load_nullable(bytes, pos, &**inner, size, tz),
            SqlType::Array(inner) => Self::load_array(bytes, pos, &**inner, size, tz),
            _ => load_numbers(bytes, pos, t, size, tz),
        }
    }

    /// Reads `size` rows of a nullable column over the type `inner`.
    fn load_nullable(bytes: &[u8], pos: usize, inner: &SqlType, size: usize, tz: Tz) -> (r: Result<
        (ColumnData, usize),
        Error,
    >)
        requires
            pos <= bytes@.len(),
            inner.supported(),
        ensures
            match (
                r,
                parse_body(
                    SqlType::Nullable(Box::new(*inner)),
                    size as nat,
                    bytes@.skip(pos as int),
                ),
            ) {
                (Ok((column, end)), Ok((rows, used))) => {
                    &&& column.wf()
                    &&& column.is_plain()
                    &&& column.spec_sql_type() == SqlType::Nullable(Box::new(*inner))
                    &&& column.spec_timezone() == zone_of(*inner, tz)
                    &&& column.rows() == rows
                    &&& rows.len() == size
                    &&& end == pos + used
                    &&& end <= bytes@.len()
                },
                (Err(e), Err(f)) => e == Error::Driver(f),
                _ => false,
            },
        decreases inner, 1nat,
    {
        let ghost s = bytes@.skip(pos as int);
        let ghost t = SqlType::Nullable(Box::new(*inner));
        let total = bytes.len();
        let left = total - pos;
        if size > left {
            return Err(Error::Driver(DriverError::UnexpectedEof));
        }
        let nulls = copy_range(bytes, pos, pos + size);
        assert(s.skip(size as int) =~= bytes@.skip(pos + size));
        match Self::load(bytes, pos + size, inner, size, tz) {
            Ok((wrapped, end)) => {
                let column = ColumnData::Nullable { nulls, inner: Box::new(wrapped) };
                proof {
                    let rows = parse_body(t, size as nat, s)->Ok_0.0;
                    assert forall|i: int| 0 <= i < size implies column.rows()[i] == rows[i] by {
                        assert(column->Nullable_nulls@[i] == s[i]);
                    }
                    assert(column.rows() =~= rows);
                }
                Ok((column, end))
            },
            Err(e) => Err(e),
        }
    }

    /// Reads `size` rows of an array column over the type `inner`.
    fn load_array(bytes: &[u8], pos: usize, inner: &SqlType, size: usize, tz: Tz) -> (r: Result<
        (ColumnData, usize),
        Error,
    >)
        requires
            pos <= bytes@.len(),
            inner.supported(),
        ensures
            match (
                r,
                parse_body(SqlType::Array(Box::new(*inner)), size as nat, bytes@.skip(pos as int)),
            ) {
                (Ok((column, end)), Ok((rows, used))) => {
                    &&& column.wf()
                    &&& column.is_plain()
                    &&& column.spec_sql_type() == SqlType::Array(Box::new(*inner))
                    &&& column.spec_timezone() == zone_of(*inner, tz)
                    &&& column.rows() == rows
                    &&& rows.len() == size
                    &&& end == pos + used
                    &&& end <= bytes@.len()
                },
                (Err(e), Err(f)) => e == Error::Driver(f),
                _ => false,
            },
        decreases inner, 1nat,
    {
        let ghost s = bytes@.skip(pos as int);
        let ghost t = SqlType::Array(Box::new(*inner));
        let (offsets, items) = match load_offsets(bytes, pos, inner, size) {
            Ok(pair) => pair,
            Err(e) => {
                return Err(e);
            },
        };
        let total = bytes.len();
        assert(s.len() == total - pos);
        let first = pos + size * 8;
        assert(s.skip(size * 8) =~= bytes@.skip(first as int));
        let ghost ends = offsets@;
        match Self::load(bytes, first, inner, items, tz) {
            Ok((flat, end)) => {
                let ghost found = flat.rows();
                let column = ColumnData::Array { offsets, inner: Box::new(flat) };
                proof {
                    let rows = Seq::new(
                        size as nat,
                        |i: int|
                            ValueView::Array(
                                *inner,
                                found.subrange(offset_before(s, i) as int, offset_at(s, i) as int),
                            ),
                    );
                    assert forall|i: int| 0 <= i < size implies column.rows()[i] == rows[i] by {
                        assert(row_start(ends, i) == offset_before(s, i));
                        assert(ends[i] == offset_at(s, i));
                    }
                    assert(column.rows() =~= rows);
                    assert(row_start(ends, size as int) == offset_before(s, size as int));
                }
                Ok((column, end))
            },
            Err(e) => Err(e),
        }
    }
}

/// Reads `size` numbers of the type `t` at `pos`.
fn load_numbers(bytes: &[u8], pos: usize, t: &SqlType, size: usize, tz: Tz) -> (r: Result<
    (ColumnData, usize),
    Error,
>)
    requires
        pos <= bytes@.len(),
        row_width(*t) is Some,
        !(t is FixedString),
        !(t is Decimal),
    ensures
        match (
            r,
            parse_fixed(*t, row_width(*t).unwrap(), size as nat, bytes@.skip(pos as int)),
        ) {
            (Ok((column, end)), Ok((rows, used))) => {
                &&& column.wf()
                &&& column.is_plain()
                &&& column.spec_sql_type() == *t
                &&& column.spec_timezone() == zone_of(*t, tz)
                &&& column.rows() == rows
                &&& rows.len() == size
                &&& end == pos + used
                &&& end <= bytes@.len()
            },
            (Err(e), Err(f)) => e == Error::Driver(f),
            _ => false,
        },
{
    let ghost s = bytes@.skip(pos as int);
    match t {
        SqlType::UInt8 => match VectorColumnData::<u8>::load(bytes, pos, size) {
            Ok((v, end)) => {
                let column = ColumnData::UInt8(v);
                assert(column.rows() =~= parse_fixed(*t, 1, size as nat, s)->Ok_0.0);
                Ok((column, end))
            },
            Err(e) => Err(e),
        },
        SqlType::UInt16 => match VectorColumnData::<u16>::load(bytes, pos, size) {
            Ok((v, end)) => {
                let column = ColumnData::UInt16(v);
                assert(column.rows() =~= parse_fixed(*t, 2, size as nat, s)->Ok_0.0);
                Ok((column, end))
            },
            Err(e) => Err(e),
        },
        SqlType::UInt32 => match VectorColumnData::<u32>::load(bytes, pos, size) {
            Ok((v, end)) => {
                let column = ColumnData::UInt32(v);
                assert(column.rows() =~= parse_fixed(*t, 4, size as nat, s)->Ok_0.0);
                Ok((column, end))
            },
            Err(e) => Err(e),
        },
        SqlType::UInt64 => match VectorColumnData::<u64>::load(bytes, pos, size) {
            Ok((v, end)) => {
                let column = ColumnData::UInt64(v);
                assert(column.rows() =~= parse_fixed(*t, 8, size as nat, s)->Ok_0.0);
                Ok((column, end))
            },
            Err(e) => Err(e),
        },
        SqlType::Int8 => match VectorColumnData::<i8>::load(bytes, pos, size) {
            Ok((v, end)) => {
                let column = ColumnData::Int8(v);
                assert(column.rows() =~= parse_fixed(*t, 1, size as nat, s)->Ok_0.0);
                Ok((column, end))
            },
            Err(e) => Err(e),
        },
        SqlType::Int16 => match VectorColumnData::<i16>::load(bytes, pos, size) {
            Ok((v, end)) => {
                let column = ColumnData::Int16(v);
                assert(column.rows() =~= parse_fixed(*t, 2, size as nat, s)->Ok_0.0);
                Ok((column, end))
            },
            Err(e) => Err(e),
        },
        SqlType::Int32 => match VectorColumnData::<i32>::load(bytes, pos, size) {
            Ok((v, end)) => {
                let column = ColumnData::Int32(v);
                assert(column.rows() =~= parse_fixed(*t, 4, size as nat, s)->Ok_0.0);
                Ok((column, end))
            },
            Err(e) => Err(e),
        },
        SqlType::Int64 => match VectorColumnData::<i64>::load(bytes, pos, size) {
            Ok((v, end)) => {
                let column = ColumnData::Int64(v);
                assert(column.rows() =~= parse_fixed(*t, 8, size as nat, s)->Ok_0.0);
                Ok((column, end))
            },
            Err(e) => Err(e),
        },
        SqlType::Float32 => match VectorColumnData::<u32>::load(bytes, pos, size) {
            Ok((v, end)) => {
                let column = ColumnData::Float32(v);
                assert(column.rows() =~= parse_fixed(*t, 4, size as nat, s)->Ok_0.0);
                Ok((column, end))
            },
            Err(e) => Err(e),
        },
        SqlType::Float64 => match VectorColumnData::<u64>::load(bytes, pos, size) {
            Ok((v, end)) => {
                let column = ColumnData::Float64(v);
                assert(column.rows() =~= parse_fixed(*t, 8, size as nat, s)->Ok_0.0);
                Ok((column, end))
            },
            Err(e) => Err(e),
        },
        SqlType::Date => match VectorColumnData::<u16>::load(bytes, pos, size) {
            Ok((v, end)) => {
                let column = ColumnData::Date(v, tz);
                assert(column.rows() =~= parse_fixed(*t, 2, size as nat, s)->Ok_0.0);
                Ok((column, end))
            },
            Err(e) => Err(e),
        },
        SqlType::DateTime => match VectorColumnData::<u32>::load(bytes, pos, size) {
            Ok((v, end)) => {
                let column = ColumnData::DateTime(v, tz);
                assert(column.rows() =~= parse_fixed(*t, 4, size as nat, s)->Ok_0.0);
                Ok((column, end))
            },
            Err(e) => Err(e),
        },
        _ => {
            assert(false);
            Err(Error::Driver(DriverError::Overflow))
        },
    }
}

/// Reads `size` decimals of the given precision and scale at `pos`.
fn load_decimal(bytes: &[u8], pos: usize, precision: u8, scale: u8, size: usize) -> (r: Result<
    (ColumnData, usize),
    Error,
>)
    requires
        pos <= bytes@.len(),
        SqlType::Decimal(precision, scale).supported(),
    ensures
        match (
            r,
            parse_fixed(
                SqlType::Decimal(precision, scale),
                NoBits::of(precision).bytes(),
                size as nat,
                bytes@.skip(pos as int),
            ),
        ) {
            (Ok((column, end)), Ok((rows, used))) => {
                &&& column.wf()
                &&& column.is_plain()
                &&& column.spec_sql_type() == SqlType::Decimal(precision, scale)
                &&& column.spec_timezone() is None
                &&& column.rows() == rows
                &&& rows.len() == size
                &&& end == pos + used
                &&& end <= bytes@.len()
            },
            (Err(e), Err(f)) => e == Error::Driver(f),
            _ => false,
        },
{
    let ghost s = bytes@.skip(pos as int);
    let ghost t = SqlType::Decimal(precision, scale);
    match NoBits::from_precision(precision) {
        Some(NoBits::N32) => match VectorColumnData::<i32>::load(bytes, pos, size) {
            Ok((narrow, end)) => {
                let column = ColumnData::Decimal32 { narrow, precision, scale };
                assert(column.rows() =~= parse_fixed(t, 4, size as nat, s)->Ok_0.0);
                Ok((column, end))
            },
            Err(e) => Err(e),
        },
        Some(NoBits::N64) => match VectorColumnData::<i64>::load(bytes, pos, size) {
            Ok((medium, end)) => {
                let column = ColumnData::Decimal64 { medium, precision, scale };
                assert(column.rows() =~= parse_fixed(t, 8, size as nat, s)->Ok_0.0);
                Ok((column, end))
            },
            Err(e) => Err(e),
        },
        Some(NoBits::N128) => match VectorColumnData::<i128>::load(bytes, pos, size) {
            Ok((wide, end)) => {
                let column = ColumnData::Decimal128 { wide, precision, scale };
                assert(column.rows() =~= parse_fixed(t, 16, size as nat, s)->Ok_0.0);
                Ok((column, end))
            },
            Err(e) => Err(e),
        },
        None => {
            assert(false);
            Err(Error::Driver(DriverError::Overflow))
        },
    }
}

/// Reads `size` strings at `pos`.
fn load_strings(bytes: &[u8], pos: usize, size: usize) -> (r: Result<(StringPool, usize), Error>)
    requires
        pos <= bytes@.len(),
    ensures
        match (r, parse_strings(size as nat, bytes@.skip(pos as int))) {
            (Ok((pool, end)), Ok((rows, used))) => {
                &&& pool.wf()
                &&& pool@.map_values(|b: Seq<u8>| ValueView::String(b)) == rows
                &&& rows.len() == size
                &&& end == pos + used
                &&& end <= bytes@.len()
            },
            (Err(e), Err(f)) => e == Error::Driver(f),
            _ => false,
        },
{
    let ghost s = bytes@.skip(pos as int);
    let total = bytes.len();
    let mut pool = StringPool::new();
    let mut at = pos;
    let mut i: usize = 0;
    assert(pool@.map_values(|b: Seq<u8>| ValueView::String(b)) =~= Seq::<ValueView>::empty());
    while i < size
        invariant
            i <= size,
            pos <= at <= total == bytes@.len(),
            s == bytes@.skip(pos as int),
            pool.wf(),
            pool@.len() == i,
            parse_strings(i as nat, s) == Ok::<(Seq<ValueView>, nat), DriverError>(
                (pool@.map_values(|b: Seq<u8>| ValueView::String(b)), (at - pos) as nat),
            ),
        decreases size - i,
    {
        assert(s.skip(at - pos) =~= bytes@.skip(at as int));
        match get_string(bytes, at) {
            Ok((text, end)) => {
                let ghost before = pool@;
                pool.push(&text);
                assert(pool@.map_values(|b: Seq<u8>| ValueView::String(b)) =~= before.map_values(
                    |b: Seq<u8>| ValueView::String(b),
                ).push(ValueView::String(text@)));
                at = end;
            },
            Err(e) => {
                proof {
                    lemma_parse_strings_fails((i + 1) as nat, size as nat, s);
                }
                return Err(Error::Driver(e));
            },
        }
        i += 1;
    }
    Ok((pool, at))
}

/// Reads `size` strings of `n` bytes each at `pos`.
fn load_fixed_string(bytes: &[u8], pos: usize, n: usize, size: usize) -> (r: Result<
    (ColumnData, usize),
    Error,
>)
    requires
        pos <= bytes@.len(),
    ensures
        match (
            r,
            parse_fixed(SqlType::FixedString(n), n as nat, size as nat, bytes@.skip(pos as int)),
        ) {
            (Ok((column, end)), Ok((rows, used))) => {
                &&& column.wf()
                &&& column.is_plain()
                &&& column.spec_sql_type() == SqlType::FixedString(n)
                &&& column.spec_timezone() is None
                &&& column.rows() == rows
                &&& rows.len() == size
                &&& end == pos + used
                &&& end <= bytes@.len()
            },
            (Err(e), Err(f)) => e == Error::Driver(f),
            _ => false,
        },
{
    let ghost s = bytes@.skip(pos as int);
    let total = bytes.len();
    let left = total - pos;
    if n == 0 {
        let column = ColumnData::FixedString { buffer: Vec::new(), str_len: 0, rows: size };
        proof {
            let rows = parse_fixed(SqlType::FixedString(0), 0, size as nat, s)->Ok_0.0;
            assert(size * 0 == 0);
            assert forall|i: int| 0 <= i < size implies column.rows()[i] == rows[i] by {
                assert(i * 0 == 0 && (i + 1) * 0 == 0);
                assert(column->FixedString_buffer@.subrange(0, 0) =~= s.subrange(0, 0));
            }
            assert(column.rows() =~= rows);
        }
        return Ok((column, pos));
    }
    if size > left / n {
        assert(size * n > left) by (nonlinear_arith)
            requires
                size > (left as int) / (n as int),
                n >= 1,
        ;
        return Err(Error::Driver(DriverError::UnexpectedEof));
    }
    assert(size * n <= left) by (nonlinear_arith)
        requires
            size <= (left as int) / (n as int),
            n >= 1,
    ;
    let taken = size * n;
    let buffer = copy_range(bytes, pos, pos + taken);
    let column = ColumnData::FixedString { buffer, str_len: n, rows: size };
    proof {
        let rows = parse_fixed(SqlType::FixedString(n), n as nat, size as nat, s)->Ok_0.0;
        assert forall|i: int| 0 <= i < size implies column.rows()[i] == rows[i] by {
            lemma_row_bounds(i, size as int, n as int);
            assert(column->FixedString_buffer@.subrange(i * n, (i + 1) * n) =~= s.subrange(
                i * n,
                (i + 1) * n,
            ));
        }
        assert(column.rows() =~= rows);
    }
    Ok((column, pos + taken))
}

/// Reads the `size` cumulative offsets of an array column at `pos`; gives them
/// and the number of items that they announce.
fn load_offsets(bytes: &[u8], pos: usize, inner: &SqlType, size: usize) -> (r: Result<
    (Vec<usize>, usize),
    Error,
>)
    requires
        pos <= bytes@.len(),
    ensures
        ({
            let s = bytes@.skip(pos as int);
            let n = size as int;
            match r {
                Ok((offsets, items)) => {
                    &&& offsets_fault(*inner, size as nat, s) is None
                    &&& n * 8 <= s.len()
                    &&& items == offset_before(s, n)
                    &&& offsets@.len() == n
                    &&& forall|j: int| 0 <= j < n ==> offsets@[j] == offset_at(s, j)
                    &&& forall|a: int, b: int| 0 <= a <= b < n ==> offsets@[a] <= offsets@[b]
                },
                Err(e) => offsets_fault(*inner, size as nat, s) matches Some(f) && e
                    == Error::Driver(f),
            }
        }),
{
    let ghost s = bytes@.skip(pos as int);
    let total = bytes.len();
    let left = total - pos;
    if size > left / 8 {
        return Err(Error::Driver(DriverError::UnexpectedEof));
    }
    let rest = left - size * 8;
    let unbounded = inner.is_zero_width();
    let most: usize = if unbounded {
        usize::MAX
    } else {
        rest
    };
    let mut offsets: Vec<usize> = Vec::with_capacity(size);
    let mut last: usize = 0;
    let mut beyond = false;
    let ghost mut far: int = 0;
    let mut i: usize = 0;
    while i < size
        invariant
            i <= size,
            size * 8 <= left == total - pos,
            total == bytes@.len(),
            rest == left - size * 8,
            unbounded == inner.zero_width(),
            most == if unbounded {
                usize::MAX
            } else {
                rest
            },
            s == bytes@.skip(pos as int),
            offsets@.len() == i,
            !beyond ==> last == offset_before(s, i as int),
            !beyond ==> last <= most,
            beyond ==> 0 <= far < i && offset_at(s, far) > most,
            !beyond ==> forall|j: int| 0 <= j < i ==> offsets@[j] == offset_at(s, j),
            forall|j: int| 0 < j < i ==> !#[trigger] steps_down(s, j),
        decreases size - i,
    {
        let raw = get_le(bytes, pos + i * 8, 8);
        proof {
            let group = bytes@.subrange(pos + i * 8, pos + i * 8 + 8);
            assert(group =~= s.subrange(i * 8, (i + 1) * 8));
            lemma_le_bytes_of_value(group);
            lemma_pow256_values();
        }
        if i > 0 {
            let before = get_le(bytes, pos + (i - 1) * 8, 8);
            proof {
                let group = bytes@.subrange(pos + (i - 1) * 8, pos + (i - 1) * 8 + 8);
                assert(group =~= s.subrange((i - 1) * 8, i * 8));
            }
            if raw < before {
                assert(steps_down(s, i as int));
                return Err(Error::Driver(DriverError::BadOffsets));
            }
            assert(!steps_down(s, i as int));
        }
        if raw > most as u128 {
            if !beyond {
                proof {
                    far = i as int;
                }
            }
            beyond = true;
        }
        if !beyond {
            last = raw as usize;
        }
        offsets.push(last);
        i += 1;
    }
    if beyond {
        proof {
            ColumnData::lemma_offsets_grow(s, far, size - 1);
        }
        return Err(
            Error::Driver(
                if unbounded {
                    DriverError::Overflow
                } else {
                    DriverError::UnexpectedEof
                },
            ),
        );
    }
    proof {
        assert forall|a: int, b: int| 0 <= a <= b < size implies offsets@[a] <= offsets@[b] by {
            ColumnData::lemma_offsets_grow(s, a, b);
        }
        if size > 0 {
            ColumnData::lemma_offsets_grow(s, size - 1, size - 1);
        }
    }
    Ok((offsets, last))
}

impl ColumnData {
    /// Offsets that never step down never go down.
    pub proof fn lemma_offsets_grow(s: Seq<u8>, a: int, b: int)
        requires
            0 <= a <= b,
            forall|j: int| 0 < j <= b ==> !#[trigger] steps_down(s, j),
        ensures
            offset_at(s, a) <= offset_at(s, b),
        decreases b - a,
    {
        if a < b {
            Self::lemma_offsets_grow(s, a, b - 1);
            assert(!steps_down(s, b));
        }
    }
}

} // verus!
