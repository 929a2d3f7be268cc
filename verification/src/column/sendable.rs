//! What storage holds itself can be sent: none of its lengths is too long
//! for the wire.

use vstd::prelude::*;
use crate::column::column_data::{row_start, ColumnData};
use crate::column::{parse_column, wire_column, Column, ColumnType, ReadFault};
use crate::errors::DriverError;
use crate::roundtrip::{all_conform, lemma_parse_body_of, sendable};
use crate::types::{Either, SqlType};
use crate::value::ValueView;
use crate::wire::{flattened, items_of, parse_body, payloads, wire_body};

verus! {

/// What becomes of a row when rows are thinned out.
pub enum Thin {
    /// The row stays.
    Keep,
    /// The default of the type takes the row's place.
    Fill,
    /// The row goes.
    Drop,
}

/// The first `n` of the rows, thinned out as `code` says of each.
pub open spec fn thinned(
    t: SqlType,
    rows: Seq<ValueView>,
    code: spec_fn(int) -> Thin,
    n: nat,
) -> Seq<ValueView>
    decreases n,
{
    if n == 0 || n > rows.len() {
        Seq::empty()
    } else {
        let front = thinned(t, rows, code, (n - 1) as nat);
        match code(n - 1) {
            Thin::Keep => front.push(rows[n - 1]),
            Thin::Fill => front.push(ValueView::default_of(t)),
            Thin::Drop => front,
        }
    }
}

/// Thinning adds no rows.
pub proof fn lemma_thinned_len(t: SqlType, rows: Seq<ValueView>, code: spec_fn(int) -> Thin, n: nat)
    ensures
        thinned(t, rows, code, n).len() <= n,
    decreases n,
{
    if n > 0 && n <= rows.len() {
        lemma_thinned_len(t, rows, code, (n - 1) as nat);
    }
}

/// Rows that all stay are appended as they are.
pub proof fn lemma_thinned_kept(
    t: SqlType,
    rows: Seq<ValueView>,
    code: spec_fn(int) -> Thin,
    a: nat,
    b: nat,
)
    requires
        a <= b <= rows.len(),
        forall|j: int| a <= j < b ==> #[trigger] code(j) is Keep,
    ensures
        thinned(t, rows, code, b) == thinned(t, rows, code, a) + rows.subrange(a as int, b as int),
    decreases b,
{
    if a < b {
        lemma_thinned_kept(t, rows, code, a, (b - 1) as nat);
        assert(code(b - 1) is Keep);
        assert(thinned(t, rows, code, b) =~= thinned(t, rows, code, a) + rows.subrange(
            a as int,
            b as int,
        ));
    } else {
        assert(thinned(t, rows, code, b) =~= thinned(t, rows, code, a) + rows.subrange(
            a as int,
            b as int,
        ));
    }
}

/// Rows that all go leave nothing.
pub proof fn lemma_thinned_dropped(
    t: SqlType,
    rows: Seq<ValueView>,
    code: spec_fn(int) -> Thin,
    a: nat,
    b: nat,
)
    requires
        a <= b <= rows.len(),
        forall|j: int| a <= j < b ==> #[trigger] code(j) is Drop,
    ensures
        thinned(t, rows, code, b) == thinned(t, rows, code, a),
    decreases b,
{
    if a < b {
        lemma_thinned_dropped(t, rows, code, a, (b - 1) as nat);
        assert(code(b - 1) is Drop);
    }
}

/// Strings that the wire can spell stay so when thinned out.
proof fn lemma_thinned_strings(rows: Seq<ValueView>, code: spec_fn(int) -> Thin, n: nat)
    requires
        n <= rows.len(),
        forall|i: int|
            0 <= i < rows.len() ==> (#[trigger] rows[i] matches ValueView::String(bytes)
                ==> bytes.len() <= usize::MAX),
    ensures
        sendable(SqlType::String, thinned(SqlType::String, rows, code, n)),
    decreases n,
{
    if n > 0 {
        lemma_thinned_strings(rows, code, (n - 1) as nat);
        let front = thinned(SqlType::String, rows, code, (n - 1) as nat);
        let all = thinned(SqlType::String, rows, code, n);
        assert forall|i: int| 0 <= i < all.len() implies (#[trigger] all[i] matches ValueView::String(
            bytes,
        ) ==> bytes.len() <= u64::MAX) by {
            if i < front.len() {
                assert(all[i] == front[i]);
            } else {
                assert(all[i] == rows[n - 1] || all[i] == ValueView::default_of(SqlType::String));
            }
        }
    }
}

/// The rows of a nullable column over `wrapped`, null where the flag is set.
pub open spec fn nullable_rows(inner: SqlType, flags: Seq<u8>, wrapped: Seq<ValueView>) -> Seq<
    ValueView,
> {
    Seq::new(
        flags.len(),
        |i: int|
            if flags[i] != 0 {
                ValueView::Nullable(Either::Left(inner))
            } else {
                ValueView::Nullable(Either::Right(Box::new(wrapped[i])))
            },
    )
}

/// What thinned rows of a nullable column wrap is what the column wraps,
/// thinned out likewise, with the default where a row is null.
proof fn lemma_thinned_payloads(
    inner: SqlType,
    flags: Seq<u8>,
    wrapped: Seq<ValueView>,
    code: spec_fn(int) -> Thin,
    n: nat,
)
    requires
        n <= flags.len() == wrapped.len(),
    ensures
        payloads(
            inner,
            thinned(
                SqlType::Nullable(Box::new(inner)),
                nullable_rows(inner, flags, wrapped),
                code,
                n,
            ),
        ) == thinned(inner, wrapped, under_flags(flags, code), n),
    decreases n,
{
    let t = SqlType::Nullable(Box::new(inner));
    let rows = nullable_rows(inner, flags, wrapped);
    let below = under_flags(flags, code);
    if n > 0 {
        lemma_thinned_payloads(inner, flags, wrapped, code, (n - 1) as nat);
        let front = thinned(t, rows, code, (n - 1) as nat);
        match code(n - 1) {
            Thin::Keep => {
                assert(payloads(inner, front.push(rows[n - 1])) =~= payloads(inner, front).push(
                    payloads(inner, seq![rows[n - 1]])[0],
                ));
            },
            Thin::Fill => {
                assert(payloads(inner, front.push(ValueView::default_of(t))) =~= payloads(
                    inner,
                    front,
                ).push(ValueView::default_of(inner)));
            },
            Thin::Drop => {},
        }
    } else {
        assert(payloads(inner, thinned(t, rows, code, n)) =~= thinned(inner, wrapped, below, n));
    }
}

/// The code for what a nullable column wraps: the default where a row that
/// stays is null.
pub open spec fn under_flags(flags: Seq<u8>, code: spec_fn(int) -> Thin) -> spec_fn(int) -> Thin {
    |i: int|
        match code(i) {
            Thin::Keep => if flags[i] != 0 {
                Thin::Fill
            } else {
                Thin::Keep
            },
            other => other,
        }
}

/// The rows of an array column over `items`, row `i` ending at `offsets[i]`.
pub open spec fn array_rows(inner: SqlType, offsets: Seq<usize>, items: Seq<ValueView>) -> Seq<
    ValueView,
> {
    Seq::new(
        offsets.len(),
        |i: int| ValueView::Array(inner, items.subrange(row_start(offsets, i), offsets[i] as int)),
    )
}

/// Whether item `j` lies between the start and the end of row `i`.
pub open spec fn holds_item(offsets: Seq<usize>, i: int, j: int) -> bool {
    row_start(offsets, i) <= j < offsets[i]
}

/// The row that holds item `j`.
pub open spec fn row_of(offsets: Seq<usize>, j: int) -> int {
    choose|i: int| 0 <= i < offsets.len() && #[trigger] holds_item(offsets, i, j)
}

/// The code for the items of an array column: an item stays where its row
/// stays, and goes where its row goes or gives way to the empty default.
pub open spec fn under_offsets(offsets: Seq<usize>, code: spec_fn(int) -> Thin) -> spec_fn(
    int,
) -> Thin {
    |j: int|
        match code(row_of(offsets, j)) {
            Thin::Keep => Thin::Keep,
            _ => Thin::Drop,
        }
}

/// An item between the start and the end of a row is held by that row.
proof fn lemma_row_of(offsets: Seq<usize>, i: int, j: int)
    requires
        0 <= i < offsets.len(),
        forall|a: int, b: int| 0 <= a <= b < offsets.len() ==> offsets[a] <= offsets[b],
        row_start(offsets, i) <= j < offsets[i],
    ensures
        row_of(offsets, j) == i,
{
    let k = row_of(offsets, j);
    assert(holds_item(offsets, i, j));
    assert(0 <= k < offsets.len() && holds_item(offsets, k, j));
    if k < i {
        assert(offsets[k] <= offsets[i - 1]);
    }
    if k > i {
        assert(offsets[i] <= offsets[k - 1]);
    }
}

/// The items of a row that is appended follow the items before it.
proof fn lemma_flattened_push(rows: Seq<ValueView>, row: ValueView)
    ensures
        flattened(rows.push(row)) == flattened(rows) + items_of(row),
{
    assert(rows.push(row).drop_last() =~= rows);
}

/// The items of thinned rows of an array column are the items of the column,
/// thinned out by rows.
proof fn lemma_thinned_items(
    inner: SqlType,
    offsets: Seq<usize>,
    items: Seq<ValueView>,
    code: spec_fn(int) -> Thin,
    n: nat,
)
    requires
        n <= offsets.len(),
        forall|a: int, b: int| 0 <= a <= b < offsets.len() ==> offsets[a] <= offsets[b],
        row_start(offsets, offsets.len() as int) == items.len(),
    ensures
        0 <= row_start(offsets, n as int) <= items.len(),
        flattened(
            thinned(SqlType::Array(Box::new(inner)), array_rows(inner, offsets, items), code, n),
        ) == thinned(inner, items, under_offsets(offsets, code), row_start(offsets, n as int) as nat),
    decreases n,
{
    let t = SqlType::Array(Box::new(inner));
    let rows = array_rows(inner, offsets, items);
    let below = under_offsets(offsets, code);
    if n > 0 {
        lemma_thinned_items(inner, offsets, items, code, (n - 1) as nat);
        let front = thinned(t, rows, code, (n - 1) as nat);
        let lo = row_start(offsets, n - 1);
        let hi = offsets[n - 1] as int;
        assert(lo <= hi) by {
            if n > 1 {
                assert(offsets[n - 2] <= offsets[n - 1]);
            }
        }
        assert(hi <= items.len()) by {
            assert(offsets[n - 1] <= offsets[offsets.len() - 1]);
        }
        assert(row_start(offsets, n as int) == hi);
        assert forall|j: int| lo <= j < hi implies row_of(offsets, j) == n - 1 by {
            lemma_row_of(offsets, n - 1, j);
        }
        match code(n - 1) {
            Thin::Keep => {
                assert forall|j: int| lo <= j < hi implies #[trigger] below(j) is Keep by {
                    assert(row_of(offsets, j) == n - 1);
                }
                lemma_thinned_kept(inner, items, below, lo as nat, hi as nat);
                lemma_flattened_push(front, rows[n - 1]);
            },
            Thin::Fill => {
                assert forall|j: int| lo <= j < hi implies #[trigger] below(j) is Drop by {
                    assert(row_of(offsets, j) == n - 1);
                }
                lemma_thinned_dropped(inner, items, below, lo as nat, hi as nat);
                lemma_flattened_push(front, ValueView::default_of(t));
                assert(flattened(front) + items_of(ValueView::default_of(t)) =~= flattened(front));
            },
            Thin::Drop => {
                assert forall|j: int| lo <= j < hi implies #[trigger] below(j) is Drop by {
                    assert(row_of(offsets, j) == n - 1);
                }
                lemma_thinned_dropped(inner, items, below, lo as nat, hi as nat);
            },
        }
    }
}

impl ColumnData {
    /// Well-formed storage holds no more rows than the machine counts.
    pub proof fn lemma_rows_counted(&self)
        requires
            self.wf(),
            self.is_plain(),
        ensures
            self.rows().len() <= usize::MAX,
    {
        match self {
            ColumnData::UInt8(v) => assert(v.data@.len() == v.data.len()),
            ColumnData::UInt16(v) => assert(v.data@.len() == v.data.len()),
            ColumnData::UInt32(v) => assert(v.data@.len() == v.data.len()),
            ColumnData::UInt64(v) => assert(v.data@.len() == v.data.len()),
            ColumnData::Int8(v) => assert(v.data@.len() == v.data.len()),
            ColumnData::Int16(v) => assert(v.data@.len() == v.data.len()),
            ColumnData::Int32(v) => assert(v.data@.len() == v.data.len()),
            ColumnData::Int64(v) => assert(v.data@.len() == v.data.len()),
            ColumnData::Float32(v) => assert(v.data@.len() == v.data.len()),
            ColumnData::Float64(v) => assert(v.data@.len() == v.data.len()),
            ColumnData::Date(v, _) => assert(v.data@.len() == v.data.len()),
            ColumnData::DateTime(v, _) => assert(v.data@.len() == v.data.len()),
            ColumnData::String(pool) => assert(pool.rows@.len() == pool.rows.len()),
            ColumnData::Decimal32 { narrow, .. } => assert(narrow.data@.len() == narrow.data.len()),
            ColumnData::Decimal64 { medium, .. } => assert(medium.data@.len() == medium.data.len()),
            ColumnData::Decimal128 { wide, .. } => assert(wide.data@.len() == wide.data.len()),
            ColumnData::Nullable { nulls, .. } => assert(nulls@.len() == nulls.len()),
            ColumnData::Array { offsets, .. } => assert(offsets@.len() == offsets.len()),
            _ => {},
        }
    }

    /// What storage holds itself can be sent, also when its rows are thinned out.
    pub proof fn lemma_thinned_sendable(&self, code: spec_fn(int) -> Thin, n: nat)
        requires
            self.wf(),
            self.is_plain(),
            n <= self.rows().len(),
        ensures
            sendable(self.spec_sql_type(), thinned(self.spec_sql_type(), self.rows(), code, n)),
        decreases self,
    {
        let t = self.spec_sql_type();
        match self {
            ColumnData::String(pool) => {
                assert forall|i: int| 0 <= i < self.rows().len() implies (
                #[trigger] self.rows()[i] matches ValueView::String(bytes) ==> bytes.len()
                    <= usize::MAX) by {
                    let entry = pool.items@[pool.rows@[i] as int];
                    assert(entry@.len() == entry.len());
                }
                lemma_thinned_strings(self.rows(), code, n);
            },
            ColumnData::Nullable { nulls, inner } => {
                let it = inner.spec_sql_type();
                assert(self.rows() =~= nullable_rows(it, nulls@, inner.rows()));
                lemma_thinned_payloads(it, nulls@, inner.rows(), code, n);
                inner.lemma_thinned_sendable(under_flags(nulls@, code), n);
            },
            ColumnData::Array { offsets, inner } => {
                let it = inner.spec_sql_type();
                assert(self.rows() =~= array_rows(it, offsets@, inner.rows()));
                lemma_thinned_items(it, offsets@, inner.rows(), code, n);
                let m = row_start(offsets@, n as int) as nat;
                inner.lemma_thinned_sendable(under_offsets(offsets@, code), m);
                lemma_thinned_len(it, inner.rows(), under_offsets(offsets@, code), m);
                inner.lemma_rows_counted();
            },
            _ => {},
        }
    }

    /// What storage holds itself can be sent.
    pub proof fn lemma_sendable(&self)
        requires
            self.wf(),
            self.is_plain(),
        ensures
            sendable(self.spec_sql_type(), self.rows()),
    {
        let keep = |j: int| Thin::Keep;
        self.lemma_thinned_sendable(keep, self.rows().len());
        lemma_thinned_kept(self.spec_sql_type(), self.rows(), keep, 0, self.rows().len());
        assert(thinned(self.spec_sql_type(), self.rows(), keep, 0) + self.rows().subrange(
            0,
            self.rows().len() as int,
        ) =~= self.rows());
    }

    /// Reading undoes writing what storage holds itself: its rows are read back
    /// from their wire bytes, whatever follows those.
    pub proof fn lemma_load_save(&self, rest: Seq<u8>)
        requires
            self.wf(),
            self.is_plain(),
        ensures
            parse_body(
                self.spec_sql_type(),
                self.rows().len(),
                wire_body(self.spec_sql_type(), self.rows()) + rest,
            ) == Ok::<(Seq<ValueView>, nat), DriverError>(
                (self.rows(), wire_body(self.spec_sql_type(), self.rows()).len()),
            ),
    {
        self.lemma_sendable();
        self.lemma_supported();
        self.lemma_rows_conform();
        lemma_parse_body_of(self.spec_sql_type(), self.rows(), rest);
    }
}

/// Reading undoes writing a column that holds its rows itself: it is read back
/// from its wire bytes with its name, its type and its rows, whatever follows
/// the bytes. The two names must not be too long for a length prefix.
pub proof fn lemma_read_write_column<K: ColumnType>(column: Column<K>, rest: Seq<u8>)
    requires
        column.wf(),
        column.storage().is_plain(),
        vstd::utf8::encode_utf8(column.spec_name()).len() <= u64::MAX,
        vstd::utf8::encode_utf8(column.spec_sql_type().name()).len() <= u64::MAX,
    ensures
        parse_column(
            column.rows().len(),
            wire_column(column.spec_name(), column.spec_sql_type(), column.rows()) + rest,
        ) == Ok::<(Seq<char>, SqlType, Seq<ValueView>, nat), ReadFault>(
            (
                column.spec_name(),
                column.spec_sql_type(),
                column.rows(),
                wire_column(column.spec_name(), column.spec_sql_type(), column.rows()).len(),
            ),
        ),
{
    column.storage().lemma_sendable();
    column.storage().lemma_supported();
    column.storage().lemma_rows_conform();
    crate::column::lemma_read_write(
        column.spec_name(),
        column.spec_sql_type(),
        column.rows(),
        rest,
    );
}

/// Writing undoes reading what was written: where the input starts with the
/// wire bytes of rows that can be sent, the rows that are read are written as
/// the very bytes that reading took.
pub proof fn lemma_save_load(t: SqlType, rows: Seq<ValueView>, rest: Seq<u8>)
    requires
        t.supported(),
        all_conform(t, rows),
        sendable(t, rows),
    ensures
        parse_body(t, rows.len(), wire_body(t, rows) + rest) matches Ok((read, used)) && wire_body(
            t,
            read,
        ) == (wire_body(t, rows) + rest).subrange(0, used as int),
{
    lemma_parse_body_of(t, rows, rest);
    assert((wire_body(t, rows) + rest).subrange(0, wire_body(t, rows).len() as int) =~= wire_body(
        t,
        rows,
    ));
}

/// Writing undoes reading a column that was written: the column that is read
/// from the wire bytes of a column is written as the very bytes that reading took.
pub proof fn lemma_write_read_column<K: ColumnType>(column: Column<K>, rest: Seq<u8>)
    requires
        column.wf(),
        column.storage().is_plain(),
        vstd::utf8::encode_utf8(column.spec_name()).len() <= u64::MAX,
        vstd::utf8::encode_utf8(column.spec_sql_type().name()).len() <= u64::MAX,
    ensures
        ({
            let sent = wire_column(column.spec_name(), column.spec_sql_type(), column.rows());
            parse_column(column.rows().len(), sent + rest) matches Ok((name, t, rows, used))
                && wire_column(name, t, rows) == (sent + rest).subrange(0, used as int)
        }),
{
    let sent = wire_column(column.spec_name(), column.spec_sql_type(), column.rows());
    lemma_read_write_column(column, rest);
    assert((sent + rest).subrange(0, sent.len() as int) =~= sent);
}

} // verus!
