//! Scalar values of a column and their mathematical model.

use vstd::prelude::*;
use crate::decimal::{rescaled, Decimal, NoBits};
use crate::types::{Either, SqlType};

verus! {

/// What a [`Value`] stands for: the same tagged scalar over sequences.
pub enum ValueView {
    UInt8(u8),
    UInt16(u16),
    UInt32(u32),
    UInt64(u64),
    Int8(i8),
    Int16(i16),
    Int32(i32),
    Int64(i64),
    Float32(u32),
    Float64(u64),
    Date(u16),
    DateTime(u32),
    String(Seq<u8>),
    Decimal(Decimal),
    /// Null of a type, or a value.
    Nullable(Either<SqlType, Box<ValueView>>),
    /// The declared item type and the items.
    Array(SqlType, Seq<ValueView>),
}

/// One row of a column.
#[derive(Debug)]
pub enum Value {
    UInt8(u8),
    UInt16(u16),
    UInt32(u32),
    UInt64(u64),
    Int8(i8),
    Int16(i16),
    Int32(i32),
    Int64(i64),
    /// Bit pattern of a single-precision number.
    Float32(u32),
    /// Bit pattern of a double-precision number.
    Float64(u64),
    /// Days since the epoch.
    Date(u16),
    /// Seconds since the epoch.
    DateTime(u32),
    String(Vec<u8>),
    Decimal(Decimal),
    /// Null of a type, or a value.
    Nullable(Either<SqlType, Box<Value>>),
    /// The declared item type and the items.
    Array(SqlType, Vec<Value>),
}

/// `bytes` cut or filled with zero bytes to exactly `n` bytes.
pub open spec fn resized(bytes: Seq<u8>, n: nat) -> Seq<u8> {
    Seq::new(
        n,
        |i: int|
            if i < bytes.len() {
                bytes[i]
            } else {
                0u8
            },
    )
}

/// The bytes that a sequence of `UInt8` values holds; another value counts as zero.
pub open spec fn bytes_of(items: Seq<ValueView>) -> Seq<u8> {
    Seq::new(
        items.len(),
        |i: int|
            match items[i] {
                ValueView::UInt8(b) => b,
                _ => 0u8,
            },
    )
}

/// Each byte as a `UInt8` value.
pub open spec fn values_of(bytes: Seq<u8>) -> Seq<ValueView> {
    Seq::new(bytes.len(), |i: int| ValueView::UInt8(bytes[i]))
}

impl ValueView {
    /// The type that the value itself declares.
    pub open spec fn type_of(self) -> SqlType
        decreases self,
    {
        match self {
            ValueView::UInt8(_) => SqlType::UInt8,
            ValueView::UInt16(_) => SqlType::UInt16,
            ValueView::UInt32(_) => SqlType::UInt32,
            ValueView::UInt64(_) => SqlType::UInt64,
            ValueView::Int8(_) => SqlType::Int8,
            ValueView::Int16(_) => SqlType::Int16,
            ValueView::Int32(_) => SqlType::Int32,
            ValueView::Int64(_) => SqlType::Int64,
            ValueView::Float32(_) => SqlType::Float32,
            ValueView::Float64(_) => SqlType::Float64,
            ValueView::Date(_) => SqlType::Date,
            ValueView::DateTime(_) => SqlType::DateTime,
            ValueView::String(_) => SqlType::String,
            ValueView::Decimal(d) => SqlType::Decimal(d.precision, d.scale),
            ValueView::Nullable(Either::Left(inner)) => SqlType::Nullable(Box::new(inner)),
            ValueView::Nullable(Either::Right(value)) => SqlType::Nullable(
                Box::new(value.type_of()),
            ),
            ValueView::Array(item, _) => SqlType::Array(Box::new(item)),
        }
    }

    /// Whether the value is one that a column of type `t` holds.
    pub open spec fn conforms(self, t: SqlType) -> bool
        decreases self,
    {
        match self {
            ValueView::UInt8(_) => t == SqlType::UInt8,
            ValueView::UInt16(_) => t == SqlType::UInt16,
            ValueView::UInt32(_) => t == SqlType::UInt32,
            ValueView::UInt64(_) => t == SqlType::UInt64,
            ValueView::Int8(_) => t == SqlType::Int8,
            ValueView::Int16(_) => t == SqlType::Int16,
            ValueView::Int32(_) => t == SqlType::Int32,
            ValueView::Int64(_) => t == SqlType::Int64,
            ValueView::Float32(_) => t == SqlType::Float32,
            ValueView::Float64(_) => t == SqlType::Float64,
            ValueView::Date(_) => t == SqlType::Date,
            ValueView::DateTime(_) => t == SqlType::DateTime,
            ValueView::String(bytes) => match t {
                SqlType::String => true,
                SqlType::FixedString(n) => bytes.len() == n,
                _ => false,
            },
            ValueView::Decimal(d) => t == SqlType::Decimal(d.precision, d.scale)
                && NoBits::of(d.precision).holds(d.underlying as int),
            ValueView::Nullable(Either::Left(inner)) => t == SqlType::Nullable(Box::new(inner)),
            ValueView::Nullable(Either::Right(value)) => match t {
                SqlType::Nullable(inner) => value.conforms(*inner),
                _ => false,
            },
            ValueView::Array(item, items) => t == SqlType::Array(Box::new(item))
                && forall|i: int| 0 <= i < items.len() ==> (#[trigger] items[i]).conforms(item),
        }
    }

    /// Whether a column of type `t` takes the value when it is pushed: a value
    /// that conforms, or one that does once its strings are cut or filled to
    /// the fixed widths of `t`.
    pub open spec fn accepted(self, t: SqlType) -> bool
        decreases self,
    {
        match self {
            ValueView::String(bytes) => t == SqlType::String || t is FixedString,
            ValueView::Nullable(Either::Right(value)) => match t {
                SqlType::Nullable(inner) => value.accepted(*inner),
                _ => false,
            },
            ValueView::Array(item, items) => t == SqlType::Array(Box::new(item))
                && forall|i: int| 0 <= i < items.len() ==> (#[trigger] items[i]).accepted(item),
            _ => self.conforms(t),
        }
    }

    /// The value as a column of type `t` stores it.
    pub open spec fn stored(self, t: SqlType) -> ValueView
        decreases self,
    {
        match self {
            ValueView::String(bytes) => match t {
                SqlType::FixedString(n) => ValueView::String(resized(bytes, n as nat)),
                _ => self,
            },
            ValueView::Nullable(Either::Right(value)) => match t {
                SqlType::Nullable(inner) => ValueView::Nullable(
                    Either::Right(Box::new(value.stored(*inner))),
                ),
                _ => self,
            },
            ValueView::Array(item, items) => ValueView::Array(
                item,
                Seq::new(
                    items.len(),
                    |i: int|
                        if 0 <= i < items.len() {
                            items[i].stored(item)
                        } else {
                            items[i]
                        },
                ),
            ),
            _ => self,
        }
    }

    /// The value that a type gives to a row nobody filled.
    pub open spec fn default_of(t: SqlType) -> ValueView
        decreases t,
    {
        match t {
            SqlType::UInt8 => ValueView::UInt8(0),
            SqlType::UInt16 => ValueView::UInt16(0),
            SqlType::UInt32 => ValueView::UInt32(0),
            SqlType::UInt64 => ValueView::UInt64(0),
            SqlType::Int8 => ValueView::Int8(0),
            SqlType::Int16 => ValueView::Int16(0),
            SqlType::Int32 => ValueView::Int32(0),
            SqlType::Int64 => ValueView::Int64(0),
            SqlType::Float32 => ValueView::Float32(0),
            SqlType::Float64 => ValueView::Float64(0),
            SqlType::String => ValueView::String(Seq::empty()),
            SqlType::FixedString(n) => ValueView::String(resized(Seq::empty(), n as nat)),
            SqlType::Date => ValueView::Date(0),
            SqlType::DateTime => ValueView::DateTime(0),
            SqlType::Decimal(p, s) => ValueView::Decimal(
                Decimal { underlying: 0, precision: p, scale: s },
            ),
            SqlType::Nullable(inner) => ValueView::Nullable(Either::Left(*inner)),
            SqlType::Array(inner) => ValueView::Array(*inner, Seq::empty()),
        }
    }

    /// The value under one of the adapters to type `dst`: a string cut or filled
    /// with zero bytes to a fixed width, a byte array read as a string, a string
    /// read as a byte array, a decimal rescaled. Any other value is left as it is.
    pub open spec fn adapted(self, dst: SqlType) -> ValueView {
        match (dst, self) {
            (SqlType::FixedString(n), ValueView::String(bytes)) => ValueView::String(
                resized(bytes, n as nat),
            ),
            (SqlType::String, ValueView::Array(_, items)) => ValueView::String(bytes_of(items)),
            (SqlType::Array(item), ValueView::String(bytes)) => ValueView::Array(
                *item,
                values_of(bytes),
            ),
            (SqlType::Decimal(p, s), ValueView::Decimal(d)) => ValueView::Decimal(
                d.spec_set_scale(p, s),
            ),
            _ => self,
        }
    }

    /// Whether an adapter to type `dst` cuts the value: a string longer than
    /// the fixed width that it is brought to.
    pub open spec fn cut_by_adapter(self, dst: SqlType) -> bool {
        match (dst, self) {
            (SqlType::FixedString(n), ValueView::String(bytes)) => bytes.len() > n,
            _ => false,
        }
    }

    /// Whether a cast to type `dst` cuts the value, or what it wraps.
    pub open spec fn cut_by(self, dst: SqlType) -> bool {
        match (dst, self) {
            (SqlType::Nullable(t), ValueView::Nullable(Either::Right(value))) => value.cut_by_adapter(
                *t,
            ),
            _ => self.cut_by_adapter(dst),
        }
    }

    /// The value as a column cast to type `dst` presents it: null stays null, and
    /// what a nullable value wraps is adapted to what `dst` wraps.
    pub open spec fn cast(self, dst: SqlType) -> ValueView {
        match (dst, self) {
            (SqlType::Nullable(t), ValueView::Nullable(Either::Left(_))) => ValueView::Nullable(
                Either::Left(*t),
            ),
            (SqlType::Nullable(t), ValueView::Nullable(Either::Right(value))) => ValueView::Nullable(
                Either::Right(Box::new(value.adapted(*t))),
            ),
            _ => self.adapted(dst),
        }
    }

    /// A cast presents the values of the source type as values of the target type.
    pub proof fn lemma_cast_conforms(self, dst: SqlType, src: SqlType)
        requires
            self.conforms(src),
            SqlType::castable(dst, src),
        ensures
            self.cast(dst).conforms(dst),
    {
        if SqlType::adapts(dst, src) {
            self.lemma_adapted_conforms(dst, src);
        } else {
            match (dst, src, self) {
                (
                    SqlType::Nullable(d),
                    SqlType::Nullable(s),
                    ValueView::Nullable(Either::Right(value)),
                ) => {
                    value.lemma_adapted_conforms(*d, *s);
                },
                _ => {},
            }
        }
    }

    proof fn lemma_adapted_conforms(self, dst: SqlType, src: SqlType)
        requires
            self.conforms(src),
            SqlType::adapts(dst, src),
            dst.supported(),
        ensures
            self.adapted(dst).conforms(dst),
            self.cast(dst) == self.adapted(dst),
    {
        match (dst, self) {
            (SqlType::Array(item), ValueView::String(bytes)) => {
                let items = values_of(bytes);
                assert forall|i: int| 0 <= i < items.len() implies (#[trigger] items[i]).conforms(
                    *item,
                ) by {}
            },
            (SqlType::Decimal(p, s), ValueView::Decimal(d)) => {
                let bits = NoBits::of(p);
                let moved = rescaled(d.underlying as int, d.scale, s, bits);
                assert(bits.holds(moved));
                assert(moved as i128 == moved);
            },
            _ => {},
        }
    }

    /// A pushed value that the column accepts is stored as one that conforms.
    pub proof fn lemma_stored_conforms(self, t: SqlType)
        requires
            self.accepted(t),
        ensures
            self.stored(t).conforms(t),
        decreases self,
    {
        match self {
            ValueView::Nullable(Either::Right(value)) => {
                match t {
                    SqlType::Nullable(inner) => {
                        value.lemma_stored_conforms(*inner);
                    },
                    _ => {},
                }
            },
            ValueView::Array(item, items) => {
                let kept = self.stored(t)->Array_1;
                assert forall|i: int| 0 <= i < kept.len() implies (#[trigger] kept[i]).conforms(
                    item,
                ) by {
                    items[i].lemma_stored_conforms(item);
                }
            },
            _ => {},
        }
    }

    /// A value that conforms is accepted and stored as it is.
    pub proof fn lemma_conforms_stored(self, t: SqlType)
        requires
            self.conforms(t),
        ensures
            self.accepted(t),
            self.stored(t) == self,
        decreases self,
    {
        match self {
            ValueView::String(bytes) => {
                match t {
                    SqlType::FixedString(n) => {
                        assert(resized(bytes, n as nat) =~= bytes);
                    },
                    _ => {},
                }
            },
            ValueView::Nullable(Either::Right(value)) => {
                match t {
                    SqlType::Nullable(inner) => {
                        value.lemma_conforms_stored(*inner);
                    },
                    _ => {},
                }
            },
            ValueView::Array(item, items) => {
                let kept = self.stored(t)->Array_1;
                assert forall|i: int| 0 <= i < items.len() implies (#[trigger] items[i]).accepted(
                    item,
                ) && kept[i] == items[i] by {
                    items[i].lemma_conforms_stored(item);
                }
                assert(kept =~= items);
            },
            _ => {},
        }
    }

    /// The default of a supported type conforms to it.
    pub proof fn lemma_default_conforms(t: SqlType)
        requires
            t.supported(),
        ensures
            Self::default_of(t).conforms(t),
    {
    }
}

impl Value {
    /// What the value stands for.
    pub open spec fn model(&self) -> ValueView
        decreases self,
    {
        match self {
            Value::UInt8(x) => ValueView::UInt8(*x),
            Value::UInt16(x) => ValueView::UInt16(*x),
            Value::UInt32(x) => ValueView::UInt32(*x),
            Value::UInt64(x) => ValueView::UInt64(*x),
            Value::Int8(x) => ValueView::Int8(*x),
            Value::Int16(x) => ValueView::Int16(*x),
            Value::Int32(x) => ValueView::Int32(*x),
            Value::Int64(x) => ValueView::Int64(*x),
            Value::Float32(x) => ValueView::Float32(*x),
            Value::Float64(x) => ValueView::Float64(*x),
            Value::Date(x) => ValueView::Date(*x),
            Value::DateTime(x) => ValueView::DateTime(*x),
            Value::String(bytes) => ValueView::String(bytes@),
            Value::Decimal(d) => ValueView::Decimal(*d),
            Value::Nullable(Either::Left(t)) => ValueView::Nullable(Either::Left(*t)),
            Value::Nullable(Either::Right(value)) => ValueView::Nullable(
                Either::Right(Box::new((**value).model())),
            ),
            Value::Array(t, items) => ValueView::Array(
                *t,
                Seq::new(
                    items.len() as nat,
                    |i: int|
                        if 0 <= i < items.len() {
                            items[i].model()
                        } else {
                            ValueView::UInt8(0)
                        },
                ),
            ),
        }
    }
}

impl View for Value {
    type V = ValueView;

    open spec fn view(&self) -> ValueView {
        self.model()
    }
}

/// The views of a vector of values, row by row.
pub open spec fn views(items: Seq<Value>) -> Seq<ValueView> {
    Seq::new(items.len(), |i: int| items[i]@)
}

/// Compares two byte strings.
pub fn bytes_eq(a: &Vec<u8>, b: &Vec<u8>) -> (r: bool)
    ensures
        r == (a@ == b@),
{
    if a.len() != b.len() {
        return false;
    }
    let mut i: usize = 0;
    while i < a.len()
        invariant
            i <= a.len(),
            a.len() == b.len(),
            forall|j: int| 0 <= j < i ==> a[j] == b[j],
        decreases a.len() - i,
    {
        if a[i] != b[i] {
            return false;
        }
        i += 1;
    }
    assert(a@ =~= b@);
    true
}

/// Copies a byte string.
pub fn bytes_clone(a: &Vec<u8>) -> (r: Vec<u8>)
    ensures
        r@ == a@,
{
    let mut r: Vec<u8> = Vec::with_capacity(a.len());
    let mut i: usize = 0;
    while i < a.len()
        invariant
            i <= a.len(),
            r@ == a@.subrange(0, i as int),
        decreases a.len() - i,
    {
        r.push(a[i]);
        assert(r@ =~= a@.subrange(0, i + 1));
        i += 1;
    }
    assert(a@.subrange(0, a.len() as int) =~= a@);
    r
}

/// Copies the bytes `[from, to)` of a byte string.
pub fn bytes_slice(a: &Vec<u8>, from: usize, to: usize) -> (r: Vec<u8>)
    requires
        from <= to <= a@.len(),
    ensures
        r@ == a@.subrange(from as int, to as int),
{
    let mut r: Vec<u8> = Vec::with_capacity(to - from);
    let mut i: usize = from;
    while i < to
        invariant
            from <= i <= to <= a@.len(),
            r@ == a@.subrange(from as int, i as int),
        decreases to - i,
    {
        r.push(a[i]);
        assert(r@ =~= a@.subrange(from as int, i + 1));
        i += 1;
    }
    r
}

/// `bytes` cut or filled with zero bytes to exactly `n` bytes.
pub fn bytes_resized(bytes: &Vec<u8>, n: usize) -> (r: Vec<u8>)
    ensures
        r@ == resized(bytes@, n as nat),
{
    let mut r: Vec<u8> = Vec::with_capacity(n);
    let mut i: usize = 0;
    while i < n
        invariant
            i <= n,
            r@ == resized(bytes@, n as nat).subrange(0, i as int),
        decreases n - i,
    {
        let b: u8 = if i < bytes.len() {
            bytes[i]
        } else {
            0
        };
        r.push(b);
        assert(r@ =~= resized(bytes@, n as nat).subrange(0, i + 1));
        i += 1;
    }
    assert(resized(bytes@, n as nat).subrange(0, n as int) =~= resized(bytes@, n as nat));
    r
}

impl Clone for Value {
    #[verifier::loop_isolation(false)]
    fn clone(&self) -> (r: Self)
        ensures
            r@ == self@,
        decreases self,
    {
        match self {
            Value::UInt8(x) => Value::UInt8(*x),
            Value::UInt16(x) => Value::UInt16(*x),
            Value::UInt32(x) => Value::UInt32(*x),
            Value::UInt64(x) => Value::UInt64(*x),
            Value::Int8(x) => Value::Int8(*x),
            Value::Int16(x) => Value::Int16(*x),
            Value::Int32(x) => Value::Int32(*x),
            Value::Int64(x) => Value::Int64(*x),
            Value::Float32(x) => Value::Float32(*x),
            Value::Float64(x) => Value::Float64(*x),
            Value::Date(x) => Value::Date(*x),
            Value::DateTime(x) => Value::DateTime(*x),
            Value::String(bytes) => Value::String(bytes_clone(bytes)),
            Value::Decimal(d) => Value::Decimal(*d),
            Value::Nullable(Either::Left(t)) => Value::Nullable(Either::Left(t.clone())),
            Value::Nullable(Either::Right(value)) => {
                let inner = (**value).clone();
                Value::Nullable(Either::Right(Box::new(inner)))
            },
            Value::Array(t, items) => {
                let mut copy: Vec<Value> = Vec::with_capacity(items.len());
                let mut i: usize = 0;
                while i < items.len()
                    invariant
                        i <= items.len(),
                        copy.len() == i,
                        forall|j: int| 0 <= j < i ==> copy[j]@ == items[j]@,
                    decreases items.len() - i,
                {
                    let item = items[i].clone();
                    copy.push(item);
                    i += 1;
                }
                let r = Value::Array(t.clone(), copy);
                assert(r@->Array_1 =~= self@->Array_1);
                r
            },
        }
    }
}

impl PartialEq for Value {
    #[verifier::loop_isolation(false)]
    fn eq(&self, other: &Value) -> (r: bool)
        decreases self,
    {
        match (self, other) {
            (Value::UInt8(a), Value::UInt8(b)) => *a == *b,
            (Value::UInt16(a), Value::UInt16(b)) => *a == *b,
            (Value::UInt32(a), Value::UInt32(b)) => *a == *b,
            (Value::UInt64(a), Value::UInt64(b)) => *a == *b,
            (Value::Int8(a), Value::Int8(b)) => *a == *b,
            (Value::Int16(a), Value::Int16(b)) => *a == *b,
            (Value::Int32(a), Value::Int32(b)) => *a == *b,
            (Value::Int64(a), Value::Int64(b)) => *a == *b,
            (Value::Float32(a), Value::Float32(b)) => *a == *b,
            (Value::Float64(a), Value::Float64(b)) => *a == *b,
            (Value::Date(a), Value::Date(b)) => *a == *b,
            (Value::DateTime(a), Value::DateTime(b)) => *a == *b,
            (Value::String(a), Value::String(b)) => bytes_eq(a, b),
            (Value::Decimal(a), Value::Decimal(b)) => a.underlying == b.underlying && a.precision
                == b.precision && a.scale == b.scale,
            (Value::Nullable(Either::Left(a)), Value::Nullable(Either::Left(b))) => a.eq(b),
            (Value::Nullable(Either::Right(a)), Value::Nullable(Either::Right(b))) => (**a).eq(
                &**b,
            ),
            (Value::Array(s, a), Value::Array(t, b)) => {
                if !s.eq(t) || a.len() != b.len() {
                    assert(self@->Array_1.len() == a.len());
                    assert(other@->Array_1.len() == b.len());
                    return false;
                }
                let mut i: usize = 0;
                while i < a.len()
                    invariant
                        i <= a.len(),
                        a.len() == b.len(),
                        forall|j: int| 0 <= j < i ==> a[j]@ == b[j]@,
                    decreases a.len() - i,
                {
                    if !a[i].eq(&b[i]) {
                        assert(self@->Array_1[i as int] == a[i as int]@);
                        assert(other@->Array_1[i as int] == b[i as int]@);
                        return false;
                    }
                    i += 1;
                }
                assert(self@->Array_1 =~= other@->Array_1);
                true
            },
            _ => false,
        }
    }
}

impl vstd::std_specs::cmp::PartialEqSpecImpl for Value {
    open spec fn obeys_eq_spec() -> bool {
        true
    }

    open spec fn eq_spec(&self, other: &Value) -> bool {
        self@ == other@
    }
}

impl Value {
    /// The value that a type gives to a row nobody filled.
    pub fn default_for(t: &SqlType) -> (r: Value)
        ensures
            r@ == ValueView::default_of(*t),
    {
        match t {
            SqlType::UInt8 => Value::UInt8(0),
            SqlType::UInt16 => Value::UInt16(0),
            SqlType::UInt32 => Value::UInt32(0),
            SqlType::UInt64 => Value::UInt64(0),
            SqlType::Int8 => Value::Int8(0),
            SqlType::Int16 => Value::Int16(0),
            SqlType::Int32 => Value::Int32(0),
            SqlType::Int64 => Value::Int64(0),
            SqlType::Float32 => Value::Float32(0),
            SqlType::Float64 => Value::Float64(0),
            SqlType::String => Value::String(Vec::new()),
            SqlType::FixedString(n) => {
                let empty: Vec<u8> = Vec::new();
                Value::String(bytes_resized(&empty, *n))
            },
            SqlType::Date => Value::Date(0),
            SqlType::DateTime => Value::DateTime(0),
            SqlType::Decimal(p, s) => Value::Decimal(
                Decimal { underlying: 0, precision: *p, scale: *s },
            ),
            SqlType::Nullable(inner) => Value::Nullable(Either::Left((**inner).clone())),
            SqlType::Array(inner) => {
                let r = Value::Array((**inner).clone(), Vec::new());
                assert(r@->Array_1 =~= Seq::empty());
                r
            },
        }
    }

    /// The type that the value itself declares.
    pub fn sql_type(&self) -> (r: SqlType)
        ensures
            r == self@.type_of(),
        decreases self,
    {
        match self {
            Value::UInt8(_) => SqlType::UInt8,
            Value::UInt16(_) => SqlType::UInt16,
            Value::UInt32(_) => SqlType::UInt32,
            Value::UInt64(_) => SqlType::UInt64,
            Value::Int8(_) => SqlType::Int8,
            Value::Int16(_) => SqlType::Int16,
            Value::Int32(_) => SqlType::Int32,
            Value::Int64(_) => SqlType::Int64,
            Value::Float32(_) => SqlType::Float32,
            Value::Float64(_) => SqlType::Float64,
            Value::Date(_) => SqlType::Date,
            Value::DateTime(_) => SqlType::DateTime,
            Value::String(_) => SqlType::String,
            Value::Decimal(d) => SqlType::Decimal(d.precision, d.scale),
            Value::Nullable(Either::Left(inner)) => SqlType::Nullable(Box::new(inner.clone())),
            Value::Nullable(Either::Right(value)) => SqlType::Nullable(
                Box::new(value.sql_type()),
            ),
            Value::Array(item, _) => SqlType::Array(Box::new(item.clone())),
        }
    }

    /// Decides whether a column of type `t` takes the value when it is pushed.
    #[verifier::loop_isolation(false)]
    pub fn is_accepted(&self, t: &SqlType) -> (r: bool)
        ensures
            r == self@.accepted(*t),
        decreases self,
    {
        match self {
            Value::UInt8(_) => matches!(t, SqlType::UInt8),
            Value::UInt16(_) => matches!(t, SqlType::UInt16),
            Value::UInt32(_) => matches!(t, SqlType::UInt32),
            Value::UInt64(_) => matches!(t, SqlType::UInt64),
            Value::Int8(_) => matches!(t, SqlType::Int8),
            Value::Int16(_) => matches!(t, SqlType::Int16),
            Value::Int32(_) => matches!(t, SqlType::Int32),
            Value::Int64(_) => matches!(t, SqlType::Int64),
            Value::Float32(_) => matches!(t, SqlType::Float32),
            Value::Float64(_) => matches!(t, SqlType::Float64),
            Value::Date(_) => matches!(t, SqlType::Date),
            Value::DateTime(_) => matches!(t, SqlType::DateTime),
            Value::String(_) => match t {
                SqlType::String => true,
                SqlType::FixedString(_) => true,
                _ => false,
            },
            Value::Decimal(d) => match t {
                SqlType::Decimal(p, s) => {
                    if d.precision == *p && d.scale == *s {
                        match NoBits::from_precision(d.precision) {
                            Some(bits) => bits.fits(d.underlying),
                            None => true,
                        }
                    } else {
                        false
                    }
                },
                _ => false,
            },
            Value::Nullable(Either::Left(inner)) => match t {
                SqlType::Nullable(declared) => inner.eq(&**declared),
                _ => false,
            },
            Value::Nullable(Either::Right(value)) => match t {
                SqlType::Nullable(declared) => value.is_accepted(&**declared),
                _ => false,
            },
            Value::Array(item, items) => match t {
                SqlType::Array(declared) => {
                    if !item.eq(&**declared) {
                        return false;
                    }
                    let mut i: usize = 0;
                    while i < items.len()
                        invariant
                            i <= items.len(),
                            forall|j: int| 0 <= j < i ==> items[j]@.accepted(*item),
                        decreases items.len() - i,
                    {
                        if !items[i].is_accepted(item) {
                            assert(self@->Array_1[i as int] == items[i as int]@);
                            return false;
                        }
                        i += 1;
                    }
                    true
                },
                _ => false,
            },
        }
    }

    fn adapt(&self, dst: &SqlType) -> (r: Value)
        ensures
            r@ == self@.adapted(*dst),
    {
        match (dst, self) {
            (SqlType::FixedString(n), Value::String(bytes)) => Value::String(
                bytes_resized(bytes, *n),
            ),
            (SqlType::String, Value::Array(_, items)) => {
                let mut bytes: Vec<u8> = Vec::with_capacity(items.len());
                let mut i: usize = 0;
                while i < items.len()
                    invariant
                        i <= items.len(),
                        bytes@ == bytes_of(views(items@)).subrange(0, i as int),
                    decreases items.len() - i,
                {
                    let b: u8 = match &items[i] {
                        Value::UInt8(b) => *b,
                        _ => 0,
                    };
                    bytes.push(b);
                    assert(bytes@ =~= bytes_of(views(items@)).subrange(0, i + 1));
                    i += 1;
                }
                assert(bytes@ =~= bytes_of(self@->Array_1));
                Value::String(bytes)
            },
            (SqlType::Array(item), Value::String(bytes)) => {
                let mut items: Vec<Value> = Vec::with_capacity(bytes.len());
                let mut i: usize = 0;
                while i < bytes.len()
                    invariant
                        i <= bytes.len(),
                        items@.len() == i,
                        forall|j: int| 0 <= j < i ==> items[j]@ == ValueView::UInt8(bytes[j]),
                    decreases bytes.len() - i,
                {
                    items.push(Value::UInt8(bytes[i]));
                    i += 1;
                }
                let r = Value::Array((**item).clone(), items);
                assert(r@->Array_1 =~= values_of(bytes@));
                r
            },
            (SqlType::Decimal(p, s), Value::Decimal(d)) => Value::Decimal(d.set_scale(*p, *s)),
            _ => self.clone(),
        }
    }

    fn is_cut_by_adapter(&self, dst: &SqlType) -> (r: bool)
        ensures
            r == self@.cut_by_adapter(*dst),
    {
        match (dst, self) {
            (SqlType::FixedString(n), Value::String(bytes)) => bytes.len() > *n,
            _ => false,
        }
    }

    /// Decides whether a cast to type `dst` cuts the value, or what it wraps.
    pub fn is_cut_by(&self, dst: &SqlType) -> (r: bool)
        ensures
            r == self@.cut_by(*dst),
    {
        match (dst, self) {
            (SqlType::Nullable(t), Value::Nullable(Either::Right(value))) => value.is_cut_by_adapter(
                &**t,
            ),
            _ => self.is_cut_by_adapter(dst),
        }
    }

    /// The value as a column cast to type `dst` presents it.
    pub fn cast(&self, dst: &SqlType) -> (r: Value)
        ensures
            r@ == self@.cast(*dst),
    {
        match (dst, self) {
            (SqlType::Nullable(t), Value::Nullable(Either::Left(_))) => Value::Nullable(
                Either::Left((**t).clone()),
            ),
            (SqlType::Nullable(t), Value::Nullable(Either::Right(value))) => {
                let inner = value.adapt(&**t);
                Value::Nullable(Either::Right(Box::new(inner)))
            },
            _ => self.adapt(dst),
        }
    }

    /// The value as a column of type `t` stores it: strings cut or filled with
    /// zero bytes to the fixed widths of `t`.
    #[verifier::loop_isolation(false)]
    pub fn to_stored(&self, t: &SqlType) -> (r: Value)
        ensures
            r@ == self@.stored(*t),
        decreases self,
    {
        match self {
            Value::String(bytes) => match t {
                SqlType::FixedString(n) => Value::String(bytes_resized(bytes, *n)),
                _ => self.clone(),
            },
            Value::Nullable(Either::Right(value)) => match t {
                SqlType::Nullable(declared) => {
                    let inner = (**value).to_stored(&**declared);
                    Value::Nullable(Either::Right(Box::new(inner)))
                },
                _ => self.clone(),
            },
            Value::Array(item, items) => {
                let mut kept: Vec<Value> = Vec::with_capacity(items.len());
                let mut i: usize = 0;
                while i < items.len()
                    invariant
                        i <= items.len(),
                        kept.len() == i,
                        forall|j: int| 0 <= j < i ==> kept[j]@ == items[j]@.stored(*item),
                    decreases items.len() - i,
                {
                    let one = items[i].to_stored(item);
                    kept.push(one);
                    i += 1;
                }
                let r = Value::Array(item.clone(), kept);
                assert(r@->Array_1 =~= self@.stored(*t)->Array_1);
                r
            },
            _ => self.clone(),
        }
    }
}

} // verus!
