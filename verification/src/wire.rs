//! The wire layout of a column's rows, and an encoder that follows it value by value.

use vstd::prelude::*;
use crate::binary::{le_bytes, le_value, parse_string, put_le, put_string, wire_string};
use crate::decimal::Decimal;
use crate::errors::DriverError;
use crate::column::numeric::{flat, Primitive};
use crate::decimal::NoBits;
use crate::types::{Either, SqlType};
use crate::value::{views, Value, ValueView};

verus! {

/// The wire bytes of one row of a type whose rows stand one after the other:
/// a number in its width, least significant byte first; a string with its
/// length before it; a fixed string as it is; a decimal as the integer behind
/// it, in the width of its precision.
pub open spec fn row_bytes(t: SqlType, v: ValueView) -> Seq<u8> {
    match v {
        ValueView::UInt8(x) => le_bytes(x.raw(), 1),
        ValueView::UInt16(x) => le_bytes(x.raw(), 2),
        ValueView::UInt32(x) => le_bytes(x.raw(), 4),
        ValueView::UInt64(x) => le_bytes(x.raw(), 8),
        ValueView::Int8(x) => le_bytes(x.raw(), 1),
        ValueView::Int16(x) => le_bytes(x.raw(), 2),
        ValueView::Int32(x) => le_bytes(x.raw(), 4),
        ValueView::Int64(x) => le_bytes(x.raw(), 8),
        ValueView::Float32(x) => le_bytes(x.raw(), 4),
        ValueView::Float64(x) => le_bytes(x.raw(), 8),
        ValueView::Date(x) => le_bytes(x.raw(), 2),
        ValueView::DateTime(x) => le_bytes(x.raw(), 4),
        ValueView::String(bytes) => if t == SqlType::String {
            wire_string(bytes)
        } else {
            bytes
        },
        ValueView::Decimal(d) => match NoBits::of(d.precision) {
            NoBits::N32 => le_bytes((d.underlying as i32).raw(), 4),
            NoBits::N64 => le_bytes((d.underlying as i64).raw(), 8),
            NoBits::N128 => le_bytes(d.underlying.raw(), 16),
        },
        _ => Seq::empty(),
    }
}

/// The wire bytes of rows that stand one after the other.
pub open spec fn rows_bytes(t: SqlType, rows: Seq<ValueView>) -> Seq<u8>
    decreases rows.len(),
{
    if rows.len() == 0 {
        Seq::empty()
    } else {
        rows_bytes(t, rows.drop_last()) + row_bytes(t, rows.last())
    }
}

/// One flag per row: 1 for null, 0 for a value.
pub open spec fn null_flags(rows: Seq<ValueView>) -> Seq<u8> {
    Seq::new(
        rows.len(),
        |i: int|
            match rows[i] {
                ValueView::Nullable(Either::Right(_)) => 0u8,
                _ => 1u8,
            },
    )
}

/// What each row of a nullable column wraps; for null, the default of the type.
pub open spec fn payloads(inner: SqlType, rows: Seq<ValueView>) -> Seq<ValueView> {
    Seq::new(
        rows.len(),
        |i: int|
            match rows[i] {
                ValueView::Nullable(Either::Right(value)) => *value,
                _ => ValueView::default_of(inner),
            },
    )
}

/// The items of an array value.
pub open spec fn items_of(v: ValueView) -> Seq<ValueView> {
    match v {
        ValueView::Array(_, items) => items,
        _ => Seq::empty(),
    }
}

/// The items of all rows of an array column, row after row.
pub open spec fn flattened(rows: Seq<ValueView>) -> Seq<ValueView>
    decreases rows.len(),
{
    if rows.len() == 0 {
        Seq::empty()
    } else {
        flattened(rows.drop_last()) + items_of(rows.last())
    }
}

/// For each row of an array column, the number of items up to its end, in 8 bytes.
pub open spec fn offsets_bytes(rows: Seq<ValueView>) -> Seq<u8>
    decreases rows.len(),
{
    if rows.len() == 0 {
        Seq::empty()
    } else {
        offsets_bytes(rows.drop_last()) + le_bytes(flattened(rows).len(), 8)
    }
}

/// The wire bytes of the rows of a column of type `t`. A nullable column sends
/// its flags and then what the rows wrap; an array column sends its offsets and
/// then all items; every other column sends row after row.
pub open spec fn wire_body(t: SqlType, rows: Seq<ValueView>) -> Seq<u8>
    decreases t,
{
    match t {
        SqlType::Nullable(inner) => null_flags(rows) + wire_body(*inner, payloads(*inner, rows)),
        SqlType::Array(inner) => offsets_bytes(rows) + wire_body(*inner, flattened(rows)),
        _ => rows_bytes(t, rows),
    }
}

/// Bytes that each row of a type takes, where all its rows take the same.
pub open spec fn row_width(t: SqlType) -> Option<nat> {
    match t {
        SqlType::UInt8 => Some(1),
        SqlType::UInt16 => Some(2),
        SqlType::UInt32 => Some(4),
        SqlType::UInt64 => Some(8),
        SqlType::Int8 => Some(1),
        SqlType::Int16 => Some(2),
        SqlType::Int32 => Some(4),
        SqlType::Int64 => Some(8),
        SqlType::Float32 => Some(4),
        SqlType::Float64 => Some(8),
        SqlType::Date => Some(2),
        SqlType::DateTime => Some(4),
        SqlType::FixedString(n) => Some(n as nat),
        SqlType::Decimal(p, _) => Some(NoBits::of(p).bytes()),
        _ => None,
    }
}

/// The value of a type of fixed width that the bytes of one row spell.
pub open spec fn decode_row(t: SqlType, bytes: Seq<u8>) -> ValueView {
    match t {
        SqlType::UInt8 => ValueView::UInt8(u8::of_raw(le_value(bytes))),
        SqlType::UInt16 => ValueView::UInt16(u16::of_raw(le_value(bytes))),
        SqlType::UInt32 => ValueView::UInt32(u32::of_raw(le_value(bytes))),
        SqlType::UInt64 => ValueView::UInt64(u64::of_raw(le_value(bytes))),
        SqlType::Int8 => ValueView::Int8(i8::of_raw(le_value(bytes))),
        SqlType::Int16 => ValueView::Int16(i16::of_raw(le_value(bytes))),
        SqlType::Int32 => ValueView::Int32(i32::of_raw(le_value(bytes))),
        SqlType::Int64 => ValueView::Int64(i64::of_raw(le_value(bytes))),
        SqlType::Float32 => ValueView::Float32(u32::of_raw(le_value(bytes))),
        SqlType::Float64 => ValueView::Float64(u64::of_raw(le_value(bytes))),
        SqlType::Date => ValueView::Date(u16::of_raw(le_value(bytes))),
        SqlType::DateTime => ValueView::DateTime(u32::of_raw(le_value(bytes))),
        SqlType::Decimal(p, s) => ValueView::Decimal(
            Decimal {
                underlying: match NoBits::of(p) {
                    NoBits::N32 => i32::of_raw(le_value(bytes)) as i128,
                    NoBits::N64 => i64::of_raw(le_value(bytes)) as i128,
                    NoBits::N128 => i128::of_raw(le_value(bytes)),
                },
                precision: p,
                scale: s,
            },
        ),
        _ => ValueView::String(bytes),
    }
}

/// What reading `n` rows of `w` bytes each gives on `s`: the rows and the
/// bytes they took, or the early end of the input.
pub open spec fn parse_fixed(t: SqlType, w: nat, n: nat, s: Seq<u8>) -> Result<
    (Seq<ValueView>, nat),
    DriverError,
> {
    if n * w > s.len() {
        Err(DriverError::UnexpectedEof)
    } else {
        Ok((Seq::new(n, |i: int| decode_row(t, s.subrange(i * w, (i + 1) * w))), n * w))
    }
}

/// What reading `n` strings gives on `s`.
pub open spec fn parse_strings(n: nat, s: Seq<u8>) -> Result<(Seq<ValueView>, nat), DriverError>
    decreases n,
{
    if n == 0 {
        Ok((Seq::empty(), 0))
    } else {
        match parse_strings((n - 1) as nat, s) {
            Ok((rows, used)) => match parse_string(s.skip(used as int)) {
                Ok((bytes, more)) => Ok((rows.push(ValueView::String(bytes)), used + more)),
                Err(e) => Err(e),
            },
            Err(e) => Err(e),
        }
    }
}

/// The cumulative offset that the `i`-th group of 8 bytes spells.
pub open spec fn offset_at(s: Seq<u8>, i: int) -> nat {
    le_value(s.subrange(i * 8, (i + 1) * 8))
}

/// Where the items of row `i` start, by the offsets that `s` spells.
pub open spec fn offset_before(s: Seq<u8>, i: int) -> nat {
    if i <= 0 {
        0
    } else {
        offset_at(s, i - 1)
    }
}

/// Whether offset `i` is below the one before it.
pub open spec fn steps_down(s: Seq<u8>, i: int) -> bool {
    offset_at(s, i - 1) > offset_at(s, i)
}

/// What is wrong with the `n` offsets at the front of `s` of an array column
/// over the type `inner`, if anything: the input is too short for them, or one
/// of them is below the one before it, or the last announces too many items.
/// Where an item takes at least one byte, that is more items than bytes are
/// left; where an item takes none, more than the machine can count.
pub open spec fn offsets_fault(inner: SqlType, n: nat, s: Seq<u8>) -> Option<DriverError> {
    if n * 8 > s.len() {
        Some(DriverError::UnexpectedEof)
    } else if exists|i: int| 0 < i < n && #[trigger] steps_down(s, i) {
        Some(DriverError::BadOffsets)
    } else if inner.zero_width() {
        if offset_before(s, n as int) > usize::MAX {
            Some(DriverError::Overflow)
        } else {
            None
        }
    } else if offset_before(s, n as int) > s.len() - n * 8 {
        Some(DriverError::UnexpectedEof)
    } else {
        None
    }
}

/// What reading `n` rows of a column of type `t` gives on `s`: the rows and
/// the bytes they took, or why they cannot be read. The flags of a nullable
/// column are null where they are not zero. The offsets of an array column
/// must not decrease, and cannot announce more items than can follow.
pub open spec fn parse_body(t: SqlType, n: nat, s: Seq<u8>) -> Result<
    (Seq<ValueView>, nat),
    DriverError,
>
    decreases t,
{
    match t {
        SqlType::Nullable(inner) => {
            if n > s.len() {
                Err(DriverError::UnexpectedEof)
            } else {
                match parse_body(*inner, n, s.skip(n as int)) {
                    Ok((wrapped, used)) => Ok(
                        (
                            Seq::new(
                                n,
                                |i: int|
                                    if s[i] != 0 {
                                        ValueView::Nullable(Either::Left(*inner))
                                    } else {
                                        ValueView::Nullable(Either::Right(Box::new(wrapped[i])))
                                    },
                            ),
                            n + used,
                        ),
                    ),
                    Err(e) => Err(e),
                }
            }
        },
        SqlType::Array(inner) => match offsets_fault(*inner, n, s) {
            Some(e) => Err(e),
            None => match parse_body(*inner, offset_before(s, n as int), s.skip((n * 8) as int)) {
                Ok((items, used)) => Ok(
                    (
                        Seq::new(
                            n,
                            |i: int|
                                ValueView::Array(
                                    *inner,
                                    items.subrange(
                                        offset_before(s, i) as int,
                                        offset_at(s, i) as int,
                                    ),
                                ),
                        ),
                        n * 8 + used,
                    ),
                ),
                Err(e) => Err(e),
            },
        },
        SqlType::String => parse_strings(n, s),
        _ => parse_fixed(t, row_width(t).unwrap(), n, s),
    }
}

/// Once a string cannot be read, no more strings can.
pub proof fn lemma_parse_strings_fails(a: nat, b: nat, s: Seq<u8>)
    requires
        a <= b,
        parse_strings(a, s) is Err,
    ensures
        parse_strings(b, s) == parse_strings(a, s),
    decreases b,
{
    if a < b {
        lemma_parse_strings_fails(a, (b - 1) as nat, s);
    }
}

/// The bytes of rows that stand one after the other add up.
pub proof fn lemma_rows_bytes_concat(t: SqlType, a: Seq<ValueView>, b: Seq<ValueView>)
    ensures
        rows_bytes(t, a + b) == rows_bytes(t, a) + rows_bytes(t, b),
    decreases b.len(),
{
    if b.len() == 0 {
        assert(a + b =~= a);
        assert(rows_bytes(t, a) + rows_bytes(t, b) =~= rows_bytes(t, a));
    } else {
        lemma_rows_bytes_concat(t, a, b.drop_last());
        assert((a + b).drop_last() =~= a + b.drop_last());
        assert((a + b).last() == b.last());
        assert(rows_bytes(t, a + b) =~= rows_bytes(t, a) + rows_bytes(t, b));
    }
}

/// A vector of numbers sends the bytes of its rows.
pub proof fn lemma_rows_bytes_flat<K: Primitive>(
    t: SqlType,
    s: Seq<K>,
    f: spec_fn(K) -> ValueView,
)
    requires
        forall|k: K| row_bytes(t, #[trigger] f(k)) == le_bytes(k.raw(), K::width()),
    ensures
        rows_bytes(t, s.map_values(f)) == flat(s),
    decreases s.len(),
{
    if s.len() > 0 {
        lemma_rows_bytes_flat(t, s.drop_last(), f);
        assert(s.map_values(f).drop_last() =~= s.drop_last().map_values(f));
        assert(s.map_values(f).last() == f(s.last()));
    }
}

/// Appends the wire bytes of one row of a type whose rows stand one after the other.
pub fn encode_row(out: &mut Vec<u8>, t: &SqlType, value: &Value)
    requires
        value@.conforms(*t),
    ensures
        final(out)@ == old(out)@ + row_bytes(*t, value@),
{
    match value {
        Value::UInt8(x) => put_le(out, x.to_raw(), 1),
        Value::UInt16(x) => put_le(out, x.to_raw(), 2),
        Value::UInt32(x) => put_le(out, x.to_raw(), 4),
        Value::UInt64(x) => put_le(out, x.to_raw(), 8),
        Value::Int8(x) => put_le(out, x.to_raw(), 1),
        Value::Int16(x) => put_le(out, x.to_raw(), 2),
        Value::Int32(x) => put_le(out, x.to_raw(), 4),
        Value::Int64(x) => put_le(out, x.to_raw(), 8),
        Value::Float32(x) => put_le(out, x.to_raw(), 4),
        Value::Float64(x) => put_le(out, x.to_raw(), 8),
        Value::Date(x) => put_le(out, x.to_raw(), 2),
        Value::DateTime(x) => put_le(out, x.to_raw(), 4),
        Value::String(bytes) => match t {
            SqlType::String => put_string(out, bytes.as_slice()),
            _ => {
                let mut i: usize = 0;
                while i < bytes.len()
                    invariant
                        i <= bytes.len(),
                        out@ == old(out)@ + bytes@.subrange(0, i as int),
                    decreases bytes.len() - i,
                {
                    out.push(bytes[i]);
                    assert(out@ =~= old(out)@ + bytes@.subrange(0, i + 1));
                    i += 1;
                }
                assert(bytes@.subrange(0, bytes@.len() as int) =~= bytes@);
                assert(old(out)@ + Seq::<u8>::empty() =~= old(out)@);
            },
        },
        Value::Decimal(d) => match NoBits::from_precision(d.precision) {
            Some(NoBits::N32) => put_le(out, (d.underlying as i32).to_raw(), 4),
            Some(NoBits::N64) => put_le(out, (d.underlying as i64).to_raw(), 8),
            _ => put_le(out, d.underlying.to_raw(), 16),
        },
        _ => {
            assert(old(out)@ + Seq::<u8>::empty() =~= old(out)@);
        },
    }
}

/// Appends the wire bytes of the rows `values` of a column of type `t`.
#[verifier::loop_isolation(false)]
pub fn encode_values(out: &mut Vec<u8>, t: &SqlType, values: &Vec<Value>)
    requires
        t.supported(),
        forall|i: int| 0 <= i < values@.len() ==> (#[trigger] values@[i])@.conforms(*t),
    ensures
        final(out)@ == old(out)@ + wire_body(*t, views(values@)),
    decreases t,
{
    let ghost rows = views(values@);
    match t {
        SqlType::Nullable(inner) => {
            let mut wrapped: Vec<Value> = Vec::with_capacity(values.len());
            let mut i: usize = 0;
            while i < values.len()
                invariant
                    i <= values.len(),
                    wrapped@.len() == i,
                    out@ == old(out)@ + null_flags(rows).subrange(0, i as int),
                    forall|j: int| 0 <= j < i ==> (#[trigger] wrapped@[j])@ == payloads(**inner, rows)[j],
                decreases values.len() - i,
            {
                assert(rows[i as int] == values@[i as int]@);
                match &values[i] {
                    Value::Nullable(Either::Right(value)) => {
                        out.push(0);
                        wrapped.push((**value).clone());
                    },
                    _ => {
                        out.push(1);
                        wrapped.push(Value::default_for(&**inner));
                    },
                }
                assert(out@ =~= old(out)@ + null_flags(rows).subrange(0, i + 1));
                i += 1;
            }
            assert(null_flags(rows).subrange(0, rows.len() as int) =~= null_flags(rows));
            assert(views(wrapped@) =~= payloads(**inner, rows));
            proof {
                ValueView::lemma_default_conforms(**inner);
                assert forall|j: int| 0 <= j < wrapped@.len() implies (#[trigger] wrapped@[j])@.conforms(
                    **inner,
                ) by {
                    assert(values@[j]@.conforms(*t));
                    assert(rows[j] == values@[j]@);
                }
            }
            encode_values(out, &**inner, &wrapped);
            assert(out@ =~= old(out)@ + wire_body(*t, rows));
        },
        SqlType::Array(inner) => {
            let mut items: Vec<Value> = Vec::new();
            let mut i: usize = 0;
            assert(rows.subrange(0, 0) =~= Seq::<ValueView>::empty());
            assert(old(out)@ + Seq::<u8>::empty() =~= old(out)@);
            while i < values.len()
                invariant
                    i <= values.len(),
                    out@ == old(out)@ + offsets_bytes(rows.subrange(0, i as int)),
                    views(items@) == flattened(rows.subrange(0, i as int)),
                    forall|j: int| 0 <= j < items@.len() ==> (#[trigger] items@[j])@.conforms(**inner),
                decreases values.len() - i,
            {
                let ghost before = items@;
                let ghost done = rows.subrange(0, i as int);
                let ghost next = rows.subrange(0, i + 1);
                assert(rows[i as int] == values@[i as int]@);
                assert(next.drop_last() =~= done);
                assert(next.last() == rows[i as int]);
                match &values[i] {
                    Value::Array(_, row) => {
                        let mut k: usize = 0;
                        while k < row.len()
                            invariant
                                k <= row.len(),
                                views(items@) == views(before) + items_of(rows[i as int]).subrange(
                                    0,
                                    k as int,
                                ),
                                forall|j: int|
                                    0 <= j < items@.len() ==> (#[trigger] items@[j])@.conforms(
                                        **inner,
                                    ),
                            decreases row.len() - k,
                        {
                            let ghost held = items@;
                            assert(items_of(rows[i as int])[k as int] == row@[k as int]@);
                            items.push(row[k].clone());
                            assert(views(items@) =~= views(held).push(row@[k as int]@));
                            assert(views(items@) =~= views(before) + items_of(
                                rows[i as int],
                            ).subrange(0, k + 1));
                            k += 1;
                        }
                        assert(items_of(rows[i as int]).subrange(0, row@.len() as int)
                            =~= items_of(rows[i as int]));
                    },
                    _ => {
                        assert(views(items@) =~= views(before) + items_of(rows[i as int]));
                    },
                }
                assert(views(items@).len() == items@.len());
                put_le(out, items.len() as u128, 8);
                assert(out@ =~= old(out)@ + offsets_bytes(next));
                i += 1;
            }
            assert(rows.subrange(0, rows.len() as int) =~= rows);
            encode_values(out, &**inner, &items);
            assert(out@ =~= old(out)@ + wire_body(*t, rows));
        },
        _ => {
            let mut i: usize = 0;
            assert(rows.subrange(0, 0) =~= Seq::<ValueView>::empty());
            assert(old(out)@ + Seq::<u8>::empty() =~= old(out)@);
            while i < values.len()
                invariant
                    i <= values.len(),
                    out@ == old(out)@ + rows_bytes(*t, rows.subrange(0, i as int)),
                decreases values.len() - i,
            {
                let ghost next = rows.subrange(0, i + 1);
                assert(next.drop_last() =~= rows.subrange(0, i as int));
                assert(next.last() == values@[i as int]@);
                encode_row(out, t, &values[i]);
                assert(out@ =~= old(out)@ + rows_bytes(*t, next));
                i += 1;
            }
            assert(rows.subrange(0, rows.len() as int) =~= rows);
        },
    }
}

} // verus!
