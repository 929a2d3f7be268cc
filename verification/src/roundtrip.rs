//! Reading undoes writing: what the wire layout sends, the reader gives back.

use vstd::prelude::*;
use crate::binary::{
    le_bytes, le_value, lemma_le_bytes_len, lemma_le_value_of_bytes, lemma_parse_string_of,
    lemma_pow256_values, uvarint, wire_string,
};
use crate::column::numeric::Primitive;
use crate::decimal::NoBits;
use crate::errors::DriverError;
use crate::types::{Either, SqlType};
use crate::value::ValueView;
use crate::wire::{
    decode_row, flattened, items_of, null_flags, offset_at, offset_before, offsets_bytes,
    offsets_fault, parse_body, parse_fixed, parse_strings, payloads, row_bytes, row_width,
    rows_bytes, steps_down, wire_body,
};

verus! {

/// Whether every length that the wire must spell for these rows fits 64 bits:
/// the length of each string, and the number of items of each array column;
/// and whether the machine can count the items that take no byte.
pub open spec fn sendable(t: SqlType, rows: Seq<ValueView>) -> bool
    decreases t,
{
    match t {
        SqlType::Nullable(inner) => sendable(*inner, payloads(*inner, rows)),
        SqlType::Array(inner) => {
            &&& flattened(rows).len() <= u64::MAX
            &&& inner.zero_width() ==> flattened(rows).len() <= usize::MAX
            &&& sendable(*inner, flattened(rows))
        },
        SqlType::String => forall|i: int|
            0 <= i < rows.len() ==> (#[trigger] rows[i] matches ValueView::String(bytes)
                ==> bytes.len() <= u64::MAX),
        _ => true,
    }
}

/// Whether every row is a value of the type.
pub open spec fn all_conform(t: SqlType, rows: Seq<ValueView>) -> bool {
    forall|i: int| 0 <= i < rows.len() ==> (#[trigger] rows[i]).conforms(t)
}

/// A number is read back from its bytes.
proof fn lemma_number<K: Primitive>(x: K)
    ensures
        le_bytes(x.raw(), K::width()).len() == K::width(),
        K::of_raw(le_value(le_bytes(x.raw(), K::width()))) == x,
{
    K::lemma_raw(x);
    lemma_le_bytes_len(x.raw(), K::width());
    lemma_le_value_of_bytes(x.raw(), K::width());
}

/// A value of a type of fixed width takes that width and is read back from its bytes.
proof fn lemma_row(t: SqlType, v: ValueView)
    requires
        t.supported(),
        v.conforms(t),
        row_width(t) is Some,
    ensures
        row_bytes(t, v).len() == row_width(t).unwrap(),
        decode_row(t, row_bytes(t, v)) == v,
{
    match v {
        ValueView::UInt8(x) => lemma_number(x),
        ValueView::UInt16(x) => lemma_number(x),
        ValueView::UInt32(x) => lemma_number(x),
        ValueView::UInt64(x) => lemma_number(x),
        ValueView::Int8(x) => lemma_number(x),
        ValueView::Int16(x) => lemma_number(x),
        ValueView::Int32(x) => lemma_number(x),
        ValueView::Int64(x) => lemma_number(x),
        ValueView::Float32(x) => lemma_number(x),
        ValueView::Float64(x) => lemma_number(x),
        ValueView::Date(x) => lemma_number(x),
        ValueView::DateTime(x) => lemma_number(x),
        ValueView::Decimal(d) => {
            match NoBits::of(d.precision) {
                NoBits::N32 => {
                    lemma_number(d.underlying as i32);
                },
                NoBits::N64 => {
                    lemma_number(d.underlying as i64);
                },
                NoBits::N128 => {
                    lemma_number(d.underlying);
                },
            }
        },
        _ => {},
    }
}

/// The bytes of rows of one width: their number, and where each row lies.
proof fn lemma_rows_bytes_at(t: SqlType, rows: Seq<ValueView>, w: nat, i: int)
    requires
        forall|j: int| 0 <= j < rows.len() ==> row_bytes(t, #[trigger] rows[j]).len() == w,
        0 <= i < rows.len(),
    ensures
        rows_bytes(t, rows).len() == rows.len() * w,
        0 <= i * w <= (i + 1) * w <= rows.len() * w,
        rows_bytes(t, rows).subrange(i * w, (i + 1) * w) == row_bytes(t, rows[i]),
    decreases rows.len(),
{
    let front = rows.drop_last();
    let n = rows.len() as int;
    assert((n - 1) * w + w == n * w) by (nonlinear_arith);
    assert(0 <= i * w <= (i + 1) * w <= n * w) by (nonlinear_arith)
        requires
            0 <= i < n,
            0 <= w,
    ;
    assert((i + 1) * w == i * w + w) by (nonlinear_arith);
    lemma_rows_bytes_len(t, front, w);
    if i < n - 1 {
        lemma_rows_bytes_at(t, front, w, i);
        assert(rows_bytes(t, rows).subrange(i * w, (i + 1) * w) =~= rows_bytes(t, front).subrange(
            i * w,
            (i + 1) * w,
        ));
        assert(front[i] == rows[i]);
    } else {
        assert(rows_bytes(t, rows).subrange(i * w, (i + 1) * w) =~= row_bytes(t, rows[i]));
    }
}

/// The bytes of rows of one width are as many as the rows times the width.
proof fn lemma_rows_bytes_len(t: SqlType, rows: Seq<ValueView>, w: nat)
    requires
        forall|j: int| 0 <= j < rows.len() ==> row_bytes(t, #[trigger] rows[j]).len() == w,
    ensures
        rows_bytes(t, rows).len() == rows.len() * w,
    decreases rows.len(),
{
    if rows.len() > 0 {
        let front = rows.drop_last();
        assert forall|j: int| 0 <= j < front.len() implies row_bytes(t, #[trigger] front[j]).len()
            == w by {
            assert(front[j] == rows[j]);
        }
        lemma_rows_bytes_len(t, front, w);
        assert((rows.len() - 1) * w + w == rows.len() * w) by (nonlinear_arith);
    } else {
        assert(0 * w == 0) by (nonlinear_arith);
    }
}

/// Rows of a type of fixed width are read back from their bytes.
pub proof fn lemma_parse_fixed_of(t: SqlType, rows: Seq<ValueView>, rest: Seq<u8>)
    requires
        t.supported(),
        row_width(t) is Some,
        all_conform(t, rows),
    ensures
        parse_fixed(t, row_width(t).unwrap(), rows.len(), rows_bytes(t, rows) + rest) == Ok::<
            (Seq<ValueView>, nat),
            DriverError,
        >((rows, rows_bytes(t, rows).len())),
{
    let w = row_width(t).unwrap();
    let sent = rows_bytes(t, rows);
    let s = sent + rest;
    assert forall|j: int| 0 <= j < rows.len() implies row_bytes(t, #[trigger] rows[j]).len()
        == w by {
        lemma_row(t, rows[j]);
    }
    lemma_rows_bytes_len(t, rows, w);
    let read = Seq::new(rows.len(), |i: int| decode_row(t, s.subrange(i * w, (i + 1) * w)));
    assert forall|i: int| 0 <= i < rows.len() implies read[i] == rows[i] by {
        lemma_rows_bytes_at(t, rows, w, i);
        lemma_row(t, rows[i]);
        assert(s.subrange(i * w, (i + 1) * w) =~= sent.subrange(i * w, (i + 1) * w));
    }
    assert(read =~= rows);
}

/// Strings are read back from their bytes.
pub proof fn lemma_parse_strings_of(rows: Seq<ValueView>, rest: Seq<u8>)
    requires
        all_conform(SqlType::String, rows),
        sendable(SqlType::String, rows),
    ensures
        parse_strings(rows.len(), rows_bytes(SqlType::String, rows) + rest) == Ok::<
            (Seq<ValueView>, nat),
            DriverError,
        >((rows, rows_bytes(SqlType::String, rows).len())),
    decreases rows.len(),
{
    let t = SqlType::String;
    if rows.len() > 0 {
        let front = rows.drop_last();
        let last = rows.last();
        let head = rows_bytes(t, front);
        let tail = row_bytes(t, last);
        assert forall|i: int| 0 <= i < front.len() implies (#[trigger] front[i]).conforms(t) by {
            assert(front[i] == rows[i]);
        }
        assert forall|i: int| 0 <= i < front.len() implies (#[trigger] front[i] matches ValueView::String(
            bytes,
        ) ==> bytes.len() <= u64::MAX) by {
            assert(front[i] == rows[i]);
        }
        lemma_parse_strings_of(front, tail + rest);
        let s = rows_bytes(t, rows) + rest;
        assert(s =~= head + (tail + rest));
        assert(s.skip(head.len() as int) =~= tail + rest);
        let bytes = last->String_0;
        assert(last.conforms(t));
        assert(last == ValueView::String(bytes));
        assert(tail == wire_string(bytes));
        lemma_parse_string_of(bytes, rest);
        assert(front.push(last) =~= rows);
        assert(parse_strings(front.len(), s) == Ok::<(Seq<ValueView>, nat), DriverError>(
            (front, head.len()),
        ));
        assert(front.len() == (rows.len() - 1) as nat);
        assert(rows_bytes(t, rows).len() == head.len() + tail.len());
    } else {
        assert(rows =~= Seq::<ValueView>::empty());
    }
}

/// Every row of a supported type takes at least one byte, but for the fixed
/// string of no width.
pub proof fn lemma_wire_body_floor(t: SqlType, rows: Seq<ValueView>)
    requires
        t.supported(),
        !t.zero_width(),
        all_conform(t, rows),
    ensures
        wire_body(t, rows).len() >= rows.len(),
    decreases t, rows.len(),
{
    match t {
        SqlType::Nullable(inner) => {},
        SqlType::Array(inner) => {
            lemma_offsets_bytes_len(rows);
        },
        _ => {
            if rows.len() > 0 {
                let front = rows.drop_last();
                assert forall|i: int| 0 <= i < front.len() implies (#[trigger] front[i]).conforms(
                    t,
                ) by {
                    assert(front[i] == rows[i]);
                }
                lemma_wire_body_floor(t, front);
                let last = rows.last();
                assert(last.conforms(t));
                if row_width(t) is Some {
                    lemma_row(t, last);
                    assert(NoBits::N32.bytes() >= 1);
                } else {
                    assert(uvarint(last->String_0.len()).len() >= 1);
                }
            }
        },
    }
}

/// The offsets of an array column take eight bytes a row.
pub proof fn lemma_offsets_bytes_len(rows: Seq<ValueView>)
    ensures
        offsets_bytes(rows).len() == rows.len() * 8,
    decreases rows.len(),
{
    if rows.len() > 0 {
        lemma_offsets_bytes_len(rows.drop_last());
        lemma_le_bytes_len(flattened(rows).len(), 8);
    }
}

/// The wire bytes of the rows `[a, b)` of a type of fixed width are the bytes
/// of all rows from byte `a` times the width to byte `b` times the width.
pub proof fn lemma_wire_body_slice(t: SqlType, rows: Seq<ValueView>, a: int, b: int)
    requires
        t.supported(),
        row_width(t) is Some,
        all_conform(t, rows),
        0 <= a <= b <= rows.len(),
    ensures
        0 <= a * row_width(t).unwrap() <= b * row_width(t).unwrap() <= wire_body(t, rows).len(),
        wire_body(t, rows.subrange(a, b)) == wire_body(t, rows).subrange(
            a * row_width(t).unwrap(),
            b * row_width(t).unwrap(),
        ),
{
    let w = row_width(t).unwrap();
    let front = rows.subrange(0, a);
    let middle = rows.subrange(a, b);
    let back = rows.subrange(b, rows.len() as int);
    assert forall|j: int| 0 <= j < rows.len() implies row_bytes(t, #[trigger] rows[j]).len()
        == w by {
        lemma_row(t, rows[j]);
    }
    lemma_rows_bytes_len(t, front, w);
    lemma_rows_bytes_len(t, middle, w);
    lemma_rows_bytes_len(t, back, w);
    assert(rows =~= front + middle + back);
    crate::wire::lemma_rows_bytes_concat(t, front, middle);
    crate::wire::lemma_rows_bytes_concat(t, front + middle, back);
    assert(a * w + (b - a) * w == b * w) by (nonlinear_arith);
    assert(rows_bytes(t, rows).subrange(a * w, b * w) =~= rows_bytes(t, middle));
}

/// How many items the first `k` rows of an array column hold.
pub open spec fn items_before(rows: Seq<ValueView>, k: int) -> nat {
    flattened(rows.subrange(0, k)).len()
}

/// One more row adds its items behind those of the rows before it.
proof fn lemma_flattened_step(rows: Seq<ValueView>, k: int)
    requires
        0 <= k < rows.len(),
    ensures
        flattened(rows.subrange(0, k + 1)) == flattened(rows.subrange(0, k)) + items_of(rows[k]),
{
    let longer = rows.subrange(0, k + 1);
    assert(longer.drop_last() =~= rows.subrange(0, k));
    assert(longer.last() == rows[k]);
}

/// The items of the first `k` rows are the front of all items.
proof fn lemma_flattened_front(rows: Seq<ValueView>, k: int)
    requires
        0 <= k <= rows.len(),
    ensures
        items_before(rows, k) <= flattened(rows).len(),
        flattened(rows.subrange(0, k)) == flattened(rows).subrange(0, items_before(rows, k) as int),
    decreases rows.len() - k,
{
    if k < rows.len() {
        lemma_flattened_front(rows, k + 1);
        lemma_flattened_step(rows, k);
        assert(flattened(rows.subrange(0, k)) =~= flattened(rows).subrange(
            0,
            items_before(rows, k) as int,
        ));
    } else {
        assert(rows.subrange(0, k) =~= rows);
        assert(flattened(rows) =~= flattened(rows).subrange(0, flattened(rows).len() as int));
    }
}

/// The items of row `i` lie between the items of the rows before it and the
/// items of the rows after it.
proof fn lemma_flattened_row(rows: Seq<ValueView>, i: int)
    requires
        0 <= i < rows.len(),
    ensures
        items_before(rows, i) <= items_before(rows, i + 1) <= flattened(rows).len(),
        flattened(rows).subrange(items_before(rows, i) as int, items_before(rows, i + 1) as int)
            == items_of(rows[i]),
{
    lemma_flattened_front(rows, i);
    lemma_flattened_front(rows, i + 1);
    lemma_flattened_step(rows, i);
    let all = flattened(rows);
    let from = items_before(rows, i) as int;
    let to = items_before(rows, i + 1) as int;
    let shorter = flattened(rows.subrange(0, i));
    let longer = flattened(rows.subrange(0, i + 1));
    let items = items_of(rows[i]);
    assert(longer == shorter + items);
    assert(longer == all.subrange(0, to));
    assert(to == from + items.len());
    assert forall|j: int| 0 <= j < items.len() implies all.subrange(from, to)[j] == items[j] by {
        assert(all.subrange(0, to)[from + j] == longer[from + j]);
    }
    assert(all.subrange(from, to) =~= items);
}

/// The items of rows that conform to an array type conform to its item type.
proof fn lemma_flattened_conform(inner: SqlType, rows: Seq<ValueView>)
    requires
        all_conform(SqlType::Array(Box::new(inner)), rows),
    ensures
        all_conform(inner, flattened(rows)),
    decreases rows.len(),
{
    if rows.len() > 0 {
        let front = rows.drop_last();
        assert forall|i: int| 0 <= i < front.len() implies (#[trigger] front[i]).conforms(
            SqlType::Array(Box::new(inner)),
        ) by {
            assert(front[i] == rows[i]);
        }
        lemma_flattened_conform(inner, front);
        let last = rows.last();
        assert(last.conforms(SqlType::Array(Box::new(inner))));
        let before = flattened(front);
        assert forall|i: int| 0 <= i < flattened(rows).len() implies (#[trigger] flattened(
            rows,
        )[i]).conforms(inner) by {
            if i >= before.len() {
                assert(flattened(rows)[i] == items_of(last)[i - before.len()]);
            } else {
                assert(flattened(rows)[i] == before[i]);
            }
        }
    }
}

/// The `i`-th offset on the wire spells how many items the rows up to row `i` hold.
proof fn lemma_offsets_at(rows: Seq<ValueView>, i: int)
    requires
        0 <= i < rows.len(),
    ensures
        offsets_bytes(rows).len() == rows.len() * 8,
        offsets_bytes(rows).subrange(i * 8, (i + 1) * 8) == le_bytes(
            items_before(rows, i + 1),
            8,
        ),
    decreases rows.len(),
{
    let front = rows.drop_last();
    let n = rows.len() as int;
    lemma_offsets_bytes_len(rows);
    lemma_offsets_bytes_len(front);
    lemma_le_bytes_len(flattened(rows).len(), 8);
    if i < n - 1 {
        lemma_offsets_at(front, i);
        assert(front.subrange(0, i + 1) =~= rows.subrange(0, i + 1));
        assert(offsets_bytes(rows).subrange(i * 8, (i + 1) * 8) =~= offsets_bytes(front).subrange(
            i * 8,
            (i + 1) * 8,
        ));
    } else {
        assert(rows.subrange(0, i + 1) =~= rows);
        assert(offsets_bytes(rows).subrange(i * 8, (i + 1) * 8) =~= le_bytes(
            flattened(rows).len(),
            8,
        ));
    }
}

/// Reading undoes writing. The rows of a supported type, each a value of the
/// type and none too long for the wire, are read back from their wire bytes
/// whatever follows those, and reading takes exactly those bytes.
pub proof fn lemma_parse_body_of(t: SqlType, rows: Seq<ValueView>, rest: Seq<u8>)
    requires
        t.supported(),
        all_conform(t, rows),
        sendable(t, rows),
    ensures
        parse_body(t, rows.len(), wire_body(t, rows) + rest) == Ok::<
            (Seq<ValueView>, nat),
            DriverError,
        >((rows, wire_body(t, rows).len())),
    decreases t,
{
    let n = rows.len();
    let s = wire_body(t, rows) + rest;
    match t {
        SqlType::Nullable(inner) => {
            let flags = null_flags(rows);
            let wrapped = payloads(*inner, rows);
            let body = wire_body(*inner, wrapped);
            assert forall|i: int| 0 <= i < wrapped.len() implies (#[trigger] wrapped[i]).conforms(
                *inner,
            ) by {
                assert(rows[i].conforms(t));
                ValueView::lemma_default_conforms(*inner);
            }
            lemma_parse_body_of(*inner, wrapped, rest);
            assert(s.skip(n as int) =~= body + rest);
            let read = Seq::new(
                n,
                |i: int|
                    if s[i] != 0 {
                        ValueView::Nullable(Either::Left(*inner))
                    } else {
                        ValueView::Nullable(Either::Right(Box::new(wrapped[i])))
                    },
            );
            assert forall|i: int| 0 <= i < n implies read[i] == rows[i] by {
                assert(rows[i].conforms(t));
                assert(s[i] == flags[i]);
            }
            assert(read =~= rows);
        },
        SqlType::Array(inner) => {
            let offsets = offsets_bytes(rows);
            let items = flattened(rows);
            let body = wire_body(*inner, items);
            lemma_offsets_bytes_len(rows);
            lemma_flattened_conform(*inner, rows);
            if !inner.zero_width() {
                lemma_wire_body_floor(*inner, items);
            }
            lemma_parse_body_of(*inner, items, rest);
            lemma_pow256_values();
            assert(s.skip((n * 8) as int) =~= body + rest);
            assert forall|i: int| 0 <= i < n implies offset_at(s, i) == items_before(
                rows,
                i + 1,
            ) by {
                lemma_offsets_at(rows, i);
                lemma_flattened_row(rows, i);
                assert(s.subrange(i * 8, (i + 1) * 8) =~= offsets.subrange(i * 8, (i + 1) * 8));
                lemma_le_value_of_bytes(items_before(rows, i + 1), 8);
            }
            assert(rows.subrange(0, 0) =~= Seq::<ValueView>::empty());
            assert(rows.subrange(0, n as int) =~= rows);
            assert forall|i: int| 0 <= i <= n implies offset_before(s, i) == items_before(
                rows,
                i,
            ) by {
                if i > 0 {
                    assert(offset_at(s, i - 1) == items_before(rows, (i - 1) + 1));
                }
            }
            assert forall|i: int| 0 < i < n implies !#[trigger] steps_down(s, i) by {
                lemma_flattened_row(rows, i);
                assert(offset_at(s, i - 1) == items_before(rows, (i - 1) + 1));
                assert(offset_at(s, i) == items_before(rows, i + 1));
            }
            assert(offsets_fault(*inner, n, s) is None);
            let read = Seq::new(
                n,
                |i: int|
                    ValueView::Array(
                        *inner,
                        items.subrange(offset_before(s, i) as int, offset_at(s, i) as int),
                    ),
            );
            assert forall|i: int| 0 <= i < n implies read[i] == rows[i] by {
                lemma_flattened_row(rows, i);
                assert(rows[i].conforms(t));
                assert(offset_at(s, i) == items_before(rows, i + 1));
                assert(offset_before(s, i) == items_before(rows, i));
            }
            assert(read =~= rows);
        },
        SqlType::String => {
            lemma_parse_strings_of(rows, rest);
        },
        _ => {
            lemma_parse_fixed_of(t, rows, rest);
        },
    }
}

} // verus!
