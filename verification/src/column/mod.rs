//! Columns and their storage.

use std::marker::PhantomData;
use std::ops::Range;
use std::sync::Arc;
use vstd::prelude::*;
use vstd::string::*;
use chrono_tz::Tz;
use crate::binary::{get_text, lemma_parse_string_of, parse_text, wire_string, Encoder};
use crate::roundtrip::{all_conform, lemma_parse_body_of, sendable};
use crate::errors::{DriverError, Error, FromSqlError};
use crate::naming::{lemma_name_of_parse, lemma_parse_name_of, parse_name};
use crate::shared::{exclusive, share};
use crate::types::SqlType;
use crate::value::{Value, ValueView};
use crate::wire::{parse_body, wire_body};

pub use self::column_data::ColumnData;
pub use self::numeric::VectorColumnData;
pub use crate::types::Either;

pub mod codec;
pub mod column_data;
pub mod iter;
pub mod numeric;
pub mod sendable;
pub mod string_pool;

verus! {

/// Marks a kind of column.
pub trait ColumnType: Send + Copy + Sync + 'static {

}

/// A column over one storage instance that was loaded or pushed into.
#[derive(Copy, Clone)]
pub struct Simple {
    _private: (),
}

/// A column over any storage, views and adapters included.
#[derive(Copy, Clone)]
pub struct Complex {
    _private: (),
}

impl ColumnType for Simple {

}

impl ColumnType for Complex {

}

impl Default for Simple {
    fn default() -> Self {
        Self { _private: () }
    }
}

impl Default for Complex {
    fn default() -> Self {
        Self { _private: () }
    }
}

/// A way to hold storage: behind a shared handle, in a box, or otherwise.
pub trait ColumnWrapper {
    type Wrapper;

    /// The storage that a wrapper holds.
    spec fn held(wrapper: &Self::Wrapper) -> ColumnData;

    /// Wraps storage.
    fn wrap(column: ColumnData) -> (r: Self::Wrapper)
        ensures
            Self::held(&r) == column,
    ;

    /// Wraps what a shared handle shows: the same rows under the same type.
    fn wrap_arc(data: Arc<ColumnData>) -> (r: Self::Wrapper)
        requires
            data.wf(),
        ensures
            Self::held(&r).wf(),
            Self::held(&r).spec_sql_type() == data.spec_sql_type(),
            Self::held(&r).spec_timezone() == data.spec_timezone(),
            Self::held(&r).is_plain() == data.is_plain(),
            Self::held(&r).rows() == data.rows(),
    ;
}

/// Holds storage behind a shared handle.
pub struct ArcColumnWrapper {}

impl ColumnWrapper for ArcColumnWrapper {
    type Wrapper = Arc<ColumnData>;

    open spec fn held(wrapper: &Self::Wrapper) -> ColumnData {
        **wrapper
    }

    fn wrap(column: ColumnData) -> (r: Self::Wrapper) {
        Arc::new(column)
    }

    /// The handle itself.
    fn wrap_arc(data: Arc<ColumnData>) -> (r: Self::Wrapper)
        ensures
            r == data,
    {
        data
    }
}

/// Holds storage in a box of its own.
pub struct BoxColumnWrapper {}

impl ColumnWrapper for BoxColumnWrapper {
    type Wrapper = Box<ColumnData>;

    open spec fn held(wrapper: &Self::Wrapper) -> ColumnData {
        **wrapper
    }

    fn wrap(column: ColumnData) -> (r: Self::Wrapper) {
        Box::new(column)
    }

    /// A copy of what the handle shows, since a box shares nothing.
    fn wrap_arc(data: Arc<ColumnData>) -> (r: Self::Wrapper) {
        Box::new(data.clone_instance())
    }
}

/// What can hand its storage over to a wrapper.
pub trait ColumnFrom: Sized {
    /// The storage of the source.
    spec fn source_data(source: &Self) -> ColumnData;

    /// The storage of `source`, held the way `W` holds storage.
    fn column_from<W: ColumnWrapper>(source: Self) -> (r: W::Wrapper)
        requires
            Self::source_data(&source).wf(),
        ensures
            W::held(&r).wf(),
            W::held(&r).spec_sql_type() == Self::source_data(&source).spec_sql_type(),
            W::held(&r).spec_timezone() == Self::source_data(&source).spec_timezone(),
            W::held(&r).is_plain() == Self::source_data(&source).is_plain(),
            W::held(&r).rows() == Self::source_data(&source).rows(),
    ;
}

/// What a cast to a fixed width does with a string that is too long for it.
#[derive(Clone, Copy, Debug, PartialEq, Eq, Structural)]
pub enum Oversize {
    /// The string is cut to the width.
    Cut,
    /// The cast is refused.
    Reject,
}

/// A named column: a shared handle to storage, tagged with its kind.
pub struct Column<K: ColumnType> {
    pub(crate) name: String,
    pub(crate) data: Arc<ColumnData>,
    pub(crate) _marker: PhantomData<K>,
}

impl<K: ColumnType> Column<K> {
    /// The storage behind the handle.
    pub closed spec fn storage(&self) -> ColumnData {
        *self.data
    }

    /// The column's name.
    pub closed spec fn spec_name(&self) -> Seq<char> {
        self.name@
    }

    /// The declared type.
    pub open spec fn spec_sql_type(&self) -> SqlType {
        self.storage().spec_sql_type()
    }

    /// The rows, as the values that `at` reports.
    pub open spec fn rows(&self) -> Seq<ValueView> {
        self.storage().rows()
    }

    /// The invariant of a column: its storage is well formed.
    pub open spec fn wf(&self) -> bool {
        self.storage().wf()
    }

    /// Decides whether the column is over well-formed storage, as every other
    /// operation on its rows requires.
    pub fn is_well_formed(&self) -> (r: bool)
        ensures
            r == self.wf(),
    {
        self.data.is_well_formed()
    }

    /// The column's name.
    pub fn name(&self) -> (r: &str)
        ensures
            r@ == self.spec_name(),
    {
        self.name.as_str()
    }

    /// The declared type.
    pub fn sql_type(&self) -> (r: SqlType)
        ensures
            r == self.spec_sql_type(),
    {
        self.data.sql_type()
    }

    /// The time zone that the dates of the column are meant in, if it holds dates.
    pub fn timezone(&self) -> (r: Option<Tz>)
        ensures
            r == self.storage().spec_timezone(),
    {
        self.data.timezone()
    }

    /// The value of row `index`.
    pub fn at(&self, index: usize) -> (r: Value)
        requires
            self.wf(),
            index < self.rows().len(),
        ensures
            r@ == self.rows()[index as int],
    {
        self.data.at(index)
    }

    /// Number of rows.
    pub fn len(&self) -> (r: usize)
        requires
            self.wf(),
        ensures
            r == self.rows().len(),
    {
        self.data.len()
    }

    /// Reads a column of `size` rows from `bytes` at `pos`; gives the column and
    /// the position behind it. Dates take the time zone `tz`.
    pub fn read(bytes: &[u8], pos: usize, size: usize, tz: Tz) -> (r: Result<
        (Column<K>, usize),
        Error,
    >)
        requires
            pos <= bytes@.len(),
        ensures
            match (r, parse_column(size as nat, bytes@.skip(pos as int))) {
                (Ok((column, end)), Ok((name, t, rows, used))) => {
                    &&& column.wf()
                    &&& column.storage().is_plain()
                    &&& column.spec_name() == name
                    &&& column.spec_sql_type() == t
                    &&& column.storage().spec_timezone() == column_data::zone_of(t, tz)
                    &&& column.rows() == rows
                    &&& rows.len() == size
                    &&& end == pos + used
                    &&& end <= bytes@.len()
                },
                (Err(e), Err(f)) => f.reported_by(e),
                _ => false,
            },
    {
        let ghost s = bytes@.skip(pos as int);
        let (name, a) = match get_text(bytes, pos) {
            Ok(pair) => pair,
            Err(e) => {
                return Err(Error::Driver(e));
            },
        };
        assert(s.skip(a - pos) =~= bytes@.skip(a as int));
        let (declared, b) = match get_text(bytes, a) {
            Ok(pair) => pair,
            Err(e) => {
                return Err(Error::Driver(e));
            },
        };
        assert(s.skip((a - pos) + (b - a)) =~= bytes@.skip(b as int));
        match ColumnData::load_data::<ArcColumnWrapper>(bytes, b, declared.as_str(), size, tz) {
            Ok((data, end)) => Ok((Column { name, data, _marker: PhantomData }, end)),
            Err(e) => Err(e),
        }
    }

    /// Appends the column as the wire carries it: the name, the name of the
    /// declared type, then all rows.
    pub fn write(&self, encoder: &mut Encoder)
        requires
            self.wf(),
        ensures
            final(encoder)@ == old(encoder)@ + wire_column(
                self.spec_name(),
                self.spec_sql_type(),
                self.rows(),
            ),
    {
        encoder.string(self.name.as_str());
        encoder.string(self.data.sql_type().to_string().as_str());
        let len = self.data.len();
        assert(self.rows().subrange(0, len as int) =~= self.rows());
        self.data.save(&mut encoder.buffer, 0, len);
        assert(encoder@ =~= old(encoder)@ + wire_column(
            self.spec_name(),
            self.spec_sql_type(),
            self.rows(),
        ));
    }

    /// A window on the rows `[range.start, range.end)` that copies nothing.
    pub fn slice(&self, range: Range<usize>) -> (r: Column<Complex>)
        requires
            self.wf(),
            range.start <= range.end <= self.rows().len(),
        ensures
            r.wf(),
            r.spec_name() == self.spec_name(),
            r.spec_sql_type() == self.spec_sql_type(),
            r.storage().spec_timezone() == self.storage().spec_timezone(),
            r.rows() == self.rows().subrange(range.start as int, range.end as int),
            r.storage() matches ColumnData::Chunk { data, start, end } && *data == self.storage()
                && start == range.start && end == range.end,
    {
        let data = ColumnData::Chunk {
            data: share(&self.data),
            start: range.start,
            end: range.end,
        };
        Column { name: self.name.clone(), data: Arc::new(data), _marker: PhantomData }
    }

    /// Appends one row. Where other columns share the storage, the column first
    /// takes a copy of its own, so that no other column sees the row.
    pub fn push(&mut self, value: Value) -> (r: Result<(), Error>)
        requires
            old(self).wf(),
        ensures
            final(self).wf(),
            final(self).spec_name() == old(self).spec_name(),
            final(self).spec_sql_type() == old(self).spec_sql_type(),
            final(self).storage().spec_timezone() == old(self).storage().spec_timezone(),
            match r {
                Ok(_) => {
                    &&& old(self).storage().is_plain()
                    &&& value@.accepted(old(self).spec_sql_type())
                    &&& old(self).storage().has_room(value@)
                    &&& final(self).rows() == old(self).rows().push(
                        value@.stored(old(self).spec_sql_type()),
                    )
                },
                Err(e) => {
                    &&& final(self).rows() == old(self).rows()
                    &&& if !old(self).storage().is_plain() {
                        e == Error::FromSql(FromSqlError::UnsupportedOperation)
                    } else if value@.accepted(old(self).spec_sql_type()) {
                        &&& !old(self).storage().has_room(value@)
                        &&& e == Error::Driver(DriverError::Overflow)
                    } else {
                        &&& if value@.type_of() == old(self).spec_sql_type() {
                            e == Error::FromSql(FromSqlError::OutOfRange)
                        } else {
                            &&& e matches Error::FromSql(FromSqlError::InvalidType { src, dst })
                            &&& src@ == value@.type_of().name()
                            &&& dst@ == old(self).spec_sql_type().name()
                        }
                    }
                },
            },
    {
        match exclusive(&mut self.data) {
            Some(data) => data.push(value),
            None => {
                let mut fresh = self.data.clone_instance();
                match fresh.push(value) {
                    Ok(()) => {
                        self.data = Arc::new(fresh);
                        Ok(())
                    },
                    Err(e) => Err(e),
                }
            },
        }
    }
}

impl<K: ColumnType> ColumnFrom for Column<K> {
    open spec fn source_data(source: &Self) -> ColumnData {
        source.storage()
    }

    fn column_from<W: ColumnWrapper>(source: Self) -> (r: W::Wrapper) {
        W::wrap_arc(source.data)
    }
}

/// Why a column cannot be read.
pub enum ReadFault {
    /// The bytes are cut short or malformed.
    Driver(DriverError),
    /// The name of the type is none that the factory knows.
    UnsupportedType(Seq<char>),
}

impl ReadFault {
    /// Whether `e` reports this fault.
    pub open spec fn reported_by(self, e: Error) -> bool {
        match (self, e) {
            (ReadFault::Driver(f), Error::Driver(g)) => f == g,
            (ReadFault::UnsupportedType(name), Error::UnsupportedType(text)) => text@ == name,
            _ => false,
        }
    }
}

/// What reading `n` rows of the type called `name` gives on `s`.
pub open spec fn parse_data(name: Seq<char>, n: nat, s: Seq<u8>) -> Result<
    (SqlType, Seq<ValueView>, nat),
    ReadFault,
> {
    match parse_name(name) {
        None => Err(ReadFault::UnsupportedType(name)),
        Some(t) => match parse_body(t, n, s) {
            Ok((rows, used)) => Ok((t, rows, used)),
            Err(e) => Err(ReadFault::Driver(e)),
        },
    }
}

/// What reading a column of `n` rows gives on `s`: its name, its type, its
/// rows and the bytes it took.
pub open spec fn parse_column(n: nat, s: Seq<u8>) -> Result<
    (Seq<char>, SqlType, Seq<ValueView>, nat),
    ReadFault,
> {
    match parse_text(s) {
        Err(e) => Err(ReadFault::Driver(e)),
        Ok((name, a)) => match parse_text(s.skip(a as int)) {
            Err(e) => Err(ReadFault::Driver(e)),
            Ok((declared, b)) => match parse_data(declared, n, s.skip((a + b) as int)) {
                Ok((t, rows, c)) => Ok((name, t, rows, a + b + c)),
                Err(e) => Err(e),
            },
        },
    }
}

impl ColumnData {
    /// Reads `size` rows of the type called `name` from `bytes` at `pos`, and
    /// wraps the storage the way `W` holds storage.
    pub fn load_data<W: ColumnWrapper>(
        bytes: &[u8],
        pos: usize,
        name: &str,
        size: usize,
        tz: Tz,
    ) -> (r: Result<(W::Wrapper, usize), Error>)
        requires
            pos <= bytes@.len(),
        ensures
            match (r, parse_data(name@, size as nat, bytes@.skip(pos as int))) {
                (Ok((wrapper, end)), Ok((t, rows, used))) => {
                    &&& W::held(&wrapper).wf()
                    &&& W::held(&wrapper).is_plain()
                    &&& W::held(&wrapper).spec_sql_type() == t
                    &&& W::held(&wrapper).spec_timezone() == column_data::zone_of(t, tz)
                    &&& W::held(&wrapper).rows() == rows
                    &&& rows.len() == size
                    &&& end == pos + used
                    &&& end <= bytes@.len()
                },
                (Err(e), Err(f)) => f.reported_by(e),
                _ => false,
            },
    {
        let t = match SqlType::from_name(name) {
            Some(t) => t,
            None => {
                proof {
                    lemma_name_of_parse(name@);
                }
                return Err(Error::UnsupportedType(String::from_str(name)));
            },
        };
        proof {
            lemma_parse_name_of(t);
        }
        match ColumnData::load(bytes, pos, &t, size, tz) {
            Ok((column, end)) => Ok((W::wrap(column), end)),
            Err(e) => Err(e),
        }
    }
}

/// A column on the wire: its name, the name of its type, then its rows.
pub open spec fn wire_column(name: Seq<char>, t: SqlType, rows: Seq<ValueView>) -> Seq<u8> {
    wire_string(vstd::utf8::encode_utf8(name)) + wire_string(vstd::utf8::encode_utf8(t.name()))
        + wire_body(t, rows)
}

/// Reading a column undoes writing it. A column of a supported type whose rows
/// are values of the type, with no length too long for the wire, is read back
/// from its wire bytes with its name, its type and its rows, whatever follows
/// the bytes; and reading takes exactly those bytes.
pub proof fn lemma_read_write(name: Seq<char>, t: SqlType, rows: Seq<ValueView>, rest: Seq<u8>)
    requires
        t.supported(),
        all_conform(t, rows),
        sendable(t, rows),
        vstd::utf8::encode_utf8(name).len() <= u64::MAX,
        vstd::utf8::encode_utf8(t.name()).len() <= u64::MAX,
    ensures
        parse_column(rows.len(), wire_column(name, t, rows) + rest) == Ok::<
            (Seq<char>, SqlType, Seq<ValueView>, nat),
            ReadFault,
        >((name, t, rows, wire_column(name, t, rows).len())),
{
    let first = vstd::utf8::encode_utf8(name);
    let second = vstd::utf8::encode_utf8(t.name());
    let body = wire_body(t, rows);
    let s = wire_column(name, t, rows) + rest;
    let a = wire_string(first).len();
    let b = wire_string(second).len();
    vstd::utf8::encode_utf8_valid_utf8(name);
    vstd::utf8::encode_utf8_decode_utf8(name);
    vstd::utf8::encode_utf8_valid_utf8(t.name());
    vstd::utf8::encode_utf8_decode_utf8(t.name());
    assert(s =~= wire_string(first) + (wire_string(second) + body + rest));
    lemma_parse_string_of(first, wire_string(second) + body + rest);
    assert(s.skip(a as int) =~= wire_string(second) + (body + rest));
    lemma_parse_string_of(second, body + rest);
    assert(s.skip((a + b) as int) =~= body + rest);
    lemma_parse_name_of(t);
    lemma_parse_body_of(t, rows, rest);
}

/// Pushing onto one of two columns that share storage leaves the other as it
/// was: the column pushed onto gains one row, the value as its type stores it,
/// behind the rows that both had.
pub proof fn lemma_push_isolated<K: ColumnType>(
    before: Column<K>,
    other: Column<K>,
    after: Column<K>,
    value: ValueView,
)
    requires
        other.storage() == before.storage(),
        after.rows() == before.rows().push(value.stored(before.spec_sql_type())),
    ensures
        other.rows() == before.rows(),
        after.rows().len() == other.rows().len() + 1,
        after.rows().last() == value.stored(before.spec_sql_type()),
        after.rows().drop_last() == other.rows(),
{
    assert(after.rows().drop_last() =~= other.rows());
}

/// Row `k` of a window that starts at row `start` is row `start + k` of the column.
pub proof fn lemma_slice_row<K: ColumnType>(
    column: Column<K>,
    window: Column<Complex>,
    start: int,
    end: int,
    k: int,
)
    requires
        0 <= start <= end <= column.rows().len(),
        window.rows() == column.rows().subrange(start, end),
        0 <= k < end - start,
    ensures
        window.rows().len() == end - start,
        window.rows()[k] == column.rows()[start + k],
{
}

/// Row `k` of column `part` is the row of the concatenation that stands `k`
/// rows behind all rows of the columns before it.
pub proof fn lemma_concat_row(items: Seq<&Column<Simple>>, part: int, k: int)
    requires
        0 <= part < items.len(),
        0 <= k < items[part].rows().len(),
    ensures
        concat_rows(items, part as nat).len() + k < concat_rows(items, items.len()).len(),
        concat_rows(items, items.len())[concat_rows(items, part as nat).len() + k]
            == items[part].rows()[k],
{
    lemma_concat_rows_front(items, (part + 1) as nat, items.len());
    let upto = concat_rows(items, (part + 1) as nat);
    assert(upto == concat_rows(items, part as nat) + items[part].rows());
    assert(upto[concat_rows(items, part as nat).len() + k] == items[part].rows()[k]);
}

/// The rows of the first `a` columns are the front of the rows of the first `b`.
pub proof fn lemma_concat_rows_front(items: Seq<&Column<Simple>>, a: nat, b: nat)
    requires
        a <= b <= items.len(),
    ensures
        concat_rows(items, a).len() <= concat_rows(items, b).len(),
        concat_rows(items, a) == concat_rows(items, b).subrange(
            0,
            concat_rows(items, a).len() as int,
        ),
    decreases b,
{
    if a < b {
        lemma_concat_rows_front(items, a, (b - 1) as nat);
        assert(concat_rows(items, a) =~= concat_rows(items, b).subrange(
            0,
            concat_rows(items, a).len() as int,
        ));
    } else {
        assert(concat_rows(items, a) =~= concat_rows(items, b).subrange(
            0,
            concat_rows(items, a).len() as int,
        ));
    }
}

/// The rows of the first `n` columns, one column after the other.
pub open spec fn concat_rows(items: Seq<&Column<Simple>>, n: nat) -> Seq<ValueView>
    decreases n,
{
    if n == 0 || n > items.len() {
        Seq::empty()
    } else {
        concat_rows(items, (n - 1) as nat) + items[n - 1].rows()
    }
}

proof fn lemma_joined_concat(items: Seq<&Column<Simple>>, parts: Seq<Arc<ColumnData>>, n: nat)
    requires
        n <= items.len(),
        n <= parts.len(),
        forall|j: int| 0 <= j < n ==> *(#[trigger] parts[j]) == items[j].storage(),
    ensures
        column_data::joined(parts, n) == concat_rows(items, n),
    decreases n,
{
    if n > 0 {
        lemma_joined_concat(items, parts, (n - 1) as nat);
    }
}

impl Column<Simple> {
    /// One column over the rows of `items`, one after the other, under the
    /// name of the first; nothing is copied.
    pub fn concat(items: &[&Column<Simple>]) -> (r: Column<Complex>)
        requires
            items@.len() >= 1,
            forall|i: int| 0 <= i < items@.len() ==> (#[trigger] items@[i]).wf(),
            forall|i: int|
                0 <= i < items@.len() ==> (#[trigger] items@[i]).spec_sql_type()
                    == items@[0].spec_sql_type(),
            concat_rows(items@, items@.len()).len() <= usize::MAX,
        ensures
            r.wf(),
            r.spec_name() == items@[0].spec_name(),
            r.spec_sql_type() == items@[0].spec_sql_type(),
            r.storage().spec_timezone() == items@[0].storage().spec_timezone(),
            r.rows() == concat_rows(items@, items@.len()),
            r.storage() matches ColumnData::Concat { parts, .. } && parts@.len() == items@.len()
                && forall|i: int|
                0 <= i < items@.len() ==> *(#[trigger] parts@[i]) == items@[i].storage(),
    {
        let n = items.len();
        let mut parts: Vec<Arc<ColumnData>> = Vec::with_capacity(n);
        let mut index: Vec<usize> = Vec::new();
        index.push(0);
        let mut total: usize = 0;
        let mut i: usize = 0;
        while i < n
            invariant
                i <= n == items@.len(),
                forall|k: int| 0 <= k < items@.len() ==> (#[trigger] items@[k]).wf(),
                concat_rows(items@, items@.len()).len() <= usize::MAX,
                parts@.len() == i,
                index@.len() == i + 1,
                index@[0] == 0,
                index@[i as int] == total,
                total == concat_rows(items@, i as nat).len(),
                forall|j: int| 0 <= j < i ==> *(#[trigger] parts@[j]) == items@[j].storage(),
                forall|j: int|
                    0 <= j < i ==> index@[j + 1] == index@[j] + (#[trigger] parts@[j]).rows().len(),
            decreases n - i,
        {
            let column = items[i];
            proof {
                lemma_concat_rows_front(items@, (i + 1) as nat, items@.len());
            }
            total = total + column.data.len();
            parts.push(share(&column.data));
            index.push(total);
            i += 1;
        }
        proof {
            lemma_joined_concat(items@, parts@, n as nat);
        }
        let data = ColumnData::Concat { parts, index };
        Column { name: items[0].name.clone(), data: Arc::new(data), _marker: PhantomData }
    }
}

impl<K: ColumnType> Column<K> {
    /// The column presented as one of type `dst_type`: itself where it has that
    /// type already, an adapter over it where a cast between the two types
    /// exists, and an error that names both types where none does.
    pub fn cast_to(self, dst_type: SqlType) -> (r: Result<Column<K>, Error>)
        requires
            self.wf(),
        ensures
            match r {
                Ok(column) => {
                    &&& column.wf()
                    &&& column.spec_name() == self.spec_name()
                    &&& column.spec_sql_type() == dst_type
                    &&& column.storage().spec_timezone() == self.storage().spec_timezone()
                    &&& if dst_type == self.spec_sql_type() {
                        column.storage() == self.storage()
                    } else {
                        &&& SqlType::castable(dst_type, self.spec_sql_type())
                        &&& column.storage() matches ColumnData::Cast { column: source, dst }
                            && *source == self.storage() && dst == dst_type
                        &&& column.rows() == self.rows().map_values(
                            |v: ValueView| v.cast(dst_type),
                        )
                    }
                },
                Err(e) => {
                    &&& dst_type != self.spec_sql_type()
                    &&& !SqlType::castable(dst_type, self.spec_sql_type())
                    &&& e matches Error::FromSql(FromSqlError::InvalidType { src, dst })
                    &&& src@ == self.spec_sql_type().name()
                    &&& dst@ == dst_type.name()
                },
            },
    {
        let src_type = self.sql_type();
        if dst_type == src_type {
            return Ok(self);
        }
        if SqlType::can_cast(&dst_type, &src_type) {
            let adapter = ColumnData::Cast { column: self.data, dst: dst_type };
            Ok(Column { name: self.name, data: Arc::new(adapter), _marker: PhantomData })
        } else {
            Err(
                Error::FromSql(
                    FromSqlError::InvalidType {
                        src: src_type.to_string(),
                        dst: dst_type.to_string(),
                    },
                ),
            )
        }
    }

    /// The column presented as one of type `dst_type`, as `cast_to` gives it.
    /// Where `oversize` rejects and the cast would cut one of the rows, the
    /// cast is refused as out of range.
    pub fn cast_to_with(self, dst_type: SqlType, oversize: Oversize) -> (r: Result<
        Column<K>,
        Error,
    >)
        requires
            self.wf(),
        ensures
            match r {
                Ok(column) => {
                    &&& column.wf()
                    &&& column.spec_name() == self.spec_name()
                    &&& column.spec_sql_type() == dst_type
                    &&& column.storage().spec_timezone() == self.storage().spec_timezone()
                    &&& if dst_type == self.spec_sql_type() {
                        column.storage() == self.storage()
                    } else {
                        &&& SqlType::castable(dst_type, self.spec_sql_type())
                        &&& column.storage() matches ColumnData::Cast { column: source, dst }
                            && *source == self.storage() && dst == dst_type
                        &&& column.rows() == self.rows().map_values(
                            |v: ValueView| v.cast(dst_type),
                        )
                        &&& oversize is Reject ==> forall|i: int|
                            0 <= i < self.rows().len() ==> !(#[trigger] self.rows()[i]).cut_by(
                                dst_type,
                            )
                    }
                },
                Err(e) => {
                    &&& dst_type != self.spec_sql_type()
                    &&& if SqlType::castable(dst_type, self.spec_sql_type()) {
                        &&& oversize is Reject
                        &&& exists|i: int|
                            0 <= i < self.rows().len() && (#[trigger] self.rows()[i]).cut_by(
                                dst_type,
                            )
                        &&& e == Error::FromSql(FromSqlError::OutOfRange)
                    } else {
                        &&& e matches Error::FromSql(FromSqlError::InvalidType { src, dst })
                        &&& src@ == self.spec_sql_type().name()
                        &&& dst@ == dst_type.name()
                    }
                },
            },
    {
        let src_type = self.sql_type();
        if matches!(oversize, Oversize::Reject) && !(dst_type == src_type) && SqlType::can_cast(
            &dst_type,
            &src_type,
        ) {
            let n = self.len();
            let mut i: usize = 0;
            while i < n
                invariant
                    i <= n == self.rows().len(),
                    self.wf(),
                    oversize is Reject,
                    dst_type != self.spec_sql_type(),
                    SqlType::castable(dst_type, self.spec_sql_type()),
                    forall|j: int| 0 <= j < i ==> !(#[trigger] self.rows()[j]).cut_by(dst_type),
                decreases n - i,
            {
                if self.at(i).is_cut_by(&dst_type) {
                    assert(self.rows()[i as int].cut_by(dst_type));
                    return Err(Error::FromSql(FromSqlError::OutOfRange));
                }
                i += 1;
            }
        }
        self.cast_to(dst_type)
    }

    /// Whether two columns hold the same values under the same declared type,
    /// whatever their storage and kind.
    pub fn eq<R: ColumnType>(&self, other: &Column<R>) -> (r: bool)
        requires
            self.wf(),
            other.wf(),
        ensures
            r == (self.spec_sql_type() == other.spec_sql_type() && self.rows() == other.rows()),
    {
        if self.len() != other.len() {
            return false;
        }
        if self.sql_type() != other.sql_type() {
            return false;
        }
        let n = self.len();
        let mut i: usize = 0;
        while i < n
            invariant
                i <= n,
                self.wf(),
                other.wf(),
                n == self.rows().len() == other.rows().len(),
                forall|j: int| 0 <= j < i ==> self.rows()[j] == other.rows()[j],
            decreases n - i,
        {
            if self.at(i) != other.at(i) {
                return false;
            }
            i += 1;
        }
        assert(self.rows() =~= other.rows());
        true
    }
}

impl<K: ColumnType> Clone for Column<K> {
    /// Another handle to the same storage, under the same name.
    fn clone(&self) -> (r: Self)
        ensures
            r.spec_name() == self.spec_name(),
            r.storage() == self.storage(),
    {
        Self { name: self.name.clone(), data: share(&self.data), _marker: PhantomData }
    }
}

/// A column called `name` over `data`.
pub fn new_column<K: ColumnType>(name: &str, data: Arc<ColumnData>) -> (r: Column<K>)
    ensures
        r.spec_name() == name@,
        r.storage() == *data,
{
    Column { name: String::from_str(name), data, _marker: PhantomData }
}

} // verus!
