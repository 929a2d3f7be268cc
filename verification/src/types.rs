//! Column type descriptors.

use vstd::prelude::*;
use vstd::string::*;

verus! {

/// One of two alternatives.
#[derive(Clone, Debug, PartialEq)]
pub enum Either<L, R> {
    Left(L),
    Right(R),
}

/// The declared type of a column.
#[derive(Debug)]
pub enum SqlType {
    UInt8,
    UInt16,
    UInt32,
    UInt64,
    Int8,
    Int16,
    Int32,
    Int64,
    /// IEEE 754 single precision, carried as its bit pattern.
    Float32,
    /// IEEE 754 double precision, carried as its bit pattern.
    Float64,
    String,
    FixedString(usize),
    Date,
    DateTime,
    /// Precision and scale.
    Decimal(u8, u8),
    Nullable(Box<SqlType>),
    Array(Box<SqlType>),
}

impl SqlType {
    /// Types that a column can have: a fixed string of any width, a decimal of 1
    /// to 38 digits at any scale, and every other type.
    pub open spec fn supported(&self) -> bool
        decreases self,
    {
        match self {
            SqlType::Decimal(p, _) => 1 <= *p <= 38,
            SqlType::Nullable(inner) => inner.supported(),
            SqlType::Array(inner) => inner.supported(),
            _ => true,
        }
    }

    /// Whether a row of the type takes no byte on the wire.
    pub open spec fn zero_width(&self) -> bool {
        *self == SqlType::FixedString(0)
    }

    /// Decides whether a row of the type takes no byte on the wire.
    pub fn is_zero_width(&self) -> (r: bool)
        ensures
            r == self.zero_width(),
    {
        match self {
            SqlType::FixedString(n) => *n == 0,
            _ => false,
        }
    }

    /// Whether the values of the type, or of what it wraps, are dates or times.
    pub open spec fn dated(&self) -> bool
        decreases self,
    {
        match self {
            SqlType::Date => true,
            SqlType::DateTime => true,
            SqlType::Nullable(inner) => inner.dated(),
            SqlType::Array(inner) => inner.dated(),
            _ => false,
        }
    }

    /// Decides whether a type is supported.
    pub fn is_supported(&self) -> (r: bool)
        ensures
            r == self.supported(),
        decreases self,
    {
        match self {
            SqlType::Decimal(p, _) => 1 <= *p && *p <= 38,
            SqlType::Nullable(inner) => inner.is_supported(),
            SqlType::Array(inner) => inner.is_supported(),
            _ => true,
        }
    }
}

impl SqlType {
    /// The casts between different types that an adapter exists for: a string
    /// to a fixed string, a byte array to a string and back, and a decimal to
    /// another precision and scale.
    pub open spec fn adapts(dst: SqlType, src: SqlType) -> bool {
        match (dst, src) {
            (SqlType::FixedString(_), SqlType::String) => true,
            (SqlType::String, SqlType::Array(item)) => *item == SqlType::UInt8,
            (SqlType::Array(item), SqlType::String) => *item == SqlType::UInt8,
            (SqlType::Decimal(_, _), SqlType::Decimal(_, _)) => true,
            _ => false,
        }
    }

    /// Whether a column of type `src` can be presented as one of the supported
    /// type `dst`: by one of the adapters, on the column itself or on what a
    /// nullable column wraps.
    pub open spec fn castable(dst: SqlType, src: SqlType) -> bool {
        dst.supported() && (Self::adapts(dst, src) || match (dst, src) {
            (SqlType::Nullable(d), SqlType::Nullable(s)) => Self::adapts(*d, *s),
            _ => false,
        })
    }

    fn has_adapter(dst: &SqlType, src: &SqlType) -> (r: bool)
        ensures
            r == Self::adapts(*dst, *src),
    {
        match (dst, src) {
            (SqlType::FixedString(_), SqlType::String) => true,
            (SqlType::String, SqlType::Array(item)) => matches!(**item, SqlType::UInt8),
            (SqlType::Array(item), SqlType::String) => matches!(**item, SqlType::UInt8),
            (SqlType::Decimal(_, _), SqlType::Decimal(_, _)) => true,
            _ => false,
        }
    }

    /// Decides whether a column of type `src` can be presented as one of type `dst`.
    pub fn can_cast(dst: &SqlType, src: &SqlType) -> (r: bool)
        ensures
            r == Self::castable(*dst, *src),
    {
        if !dst.is_supported() {
            return false;
        }
        if Self::has_adapter(dst, src) {
            return true;
        }
        match (dst, src) {
            (SqlType::Nullable(d), SqlType::Nullable(s)) => Self::has_adapter(&**d, &**s),
            _ => false,
        }
    }
}

/// The character of a decimal digit.
pub open spec fn digit(d: nat) -> char {
    if d == 0 {
        '0'
    } else if d == 1 {
        '1'
    } else if d == 2 {
        '2'
    } else if d == 3 {
        '3'
    } else if d == 4 {
        '4'
    } else if d == 5 {
        '5'
    } else if d == 6 {
        '6'
    } else if d == 7 {
        '7'
    } else if d == 8 {
        '8'
    } else {
        '9'
    }
}

/// A number in decimal digits, without leading zeros.
pub open spec fn decimal_digits(n: nat) -> Seq<char>
    decreases n,
{
    if n < 10 {
        seq![digit(n)]
    } else {
        decimal_digits(n / 10) + seq![digit(n % 10)]
    }
}

fn digit_str(d: u64) -> (r: &'static str)
    requires
        d < 10,
    ensures
        r@ == seq![digit(d as nat)],
{
    proof {
        reveal_strlit("0");
        reveal_strlit("1");
        reveal_strlit("2");
        reveal_strlit("3");
        reveal_strlit("4");
        reveal_strlit("5");
        reveal_strlit("6");
        reveal_strlit("7");
        reveal_strlit("8");
        reveal_strlit("9");
    }
    let r = if d == 0 {
        "0"
    } else if d == 1 {
        "1"
    } else if d == 2 {
        "2"
    } else if d == 3 {
        "3"
    } else if d == 4 {
        "4"
    } else if d == 5 {
        "5"
    } else if d == 6 {
        "6"
    } else if d == 7 {
        "7"
    } else if d == 8 {
        "8"
    } else {
        "9"
    };
    assert(r@ =~= seq![digit(d as nat)]);
    r
}

/// Appends a number in decimal digits.
pub fn push_decimal(text: &mut String, n: u64)
    ensures
        final(text)@ == old(text)@ + decimal_digits(n as nat),
    decreases n,
{
    if n >= 10 {
        push_decimal(text, n / 10);
    }
    text.append(digit_str(n % 10));
    assert(text@ =~= old(text)@ + decimal_digits(n as nat));
}

impl SqlType {
    /// The name of the type as the wire spells it.
    pub open spec fn name(&self) -> Seq<char>
        decreases self,
    {
        match self {
            SqlType::UInt8 => "UInt8"@,
            SqlType::UInt16 => "UInt16"@,
            SqlType::UInt32 => "UInt32"@,
            SqlType::UInt64 => "UInt64"@,
            SqlType::Int8 => "Int8"@,
            SqlType::Int16 => "Int16"@,
            SqlType::Int32 => "Int32"@,
            SqlType::Int64 => "Int64"@,
            SqlType::Float32 => "Float32"@,
            SqlType::Float64 => "Float64"@,
            SqlType::String => "String"@,
            SqlType::FixedString(n) => "FixedString("@ + decimal_digits(*n as nat) + ")"@,
            SqlType::Date => "Date"@,
            SqlType::DateTime => "DateTime"@,
            SqlType::Decimal(p, s) => "Decimal("@ + decimal_digits(*p as nat) + ","@
                + decimal_digits(*s as nat) + ")"@,
            SqlType::Nullable(inner) => "Nullable("@ + inner.name() + ")"@,
            SqlType::Array(inner) => "Array("@ + inner.name() + ")"@,
        }
    }

    /// The name of the type as the wire spells it.
    pub fn to_string(&self) -> (r: String)
        ensures
            r@ == self.name(),
        decreases self,
    {
        match self {
            SqlType::UInt8 => String::from_str("UInt8"),
            SqlType::UInt16 => String::from_str("UInt16"),
            SqlType::UInt32 => String::from_str("UInt32"),
            SqlType::UInt64 => String::from_str("UInt64"),
            SqlType::Int8 => String::from_str("Int8"),
            SqlType::Int16 => String::from_str("Int16"),
            SqlType::Int32 => String::from_str("Int32"),
            SqlType::Int64 => String::from_str("Int64"),
            SqlType::Float32 => String::from_str("Float32"),
            SqlType::Float64 => String::from_str("Float64"),
            SqlType::String => String::from_str("String"),
            SqlType::FixedString(n) => {
                let mut text = String::from_str("FixedString(");
                push_decimal(&mut text, *n as u64);
                text.append(")");
                text
            },
            SqlType::Date => String::from_str("Date"),
            SqlType::DateTime => String::from_str("DateTime"),
            SqlType::Decimal(p, s) => {
                let mut text = String::from_str("Decimal(");
                push_decimal(&mut text, *p as u64);
                text.append(",");
                push_decimal(&mut text, *s as u64);
                text.append(")");
                text
            },
            SqlType::Nullable(inner) => {
                let mut text = String::from_str("Nullable(");
                let of = inner.to_string();
                text.append(of.as_str());
                text.append(")");
                text
            },
            SqlType::Array(inner) => {
                let mut text = String::from_str("Array(");
                let of = inner.to_string();
                text.append(of.as_str());
                text.append(")");
                text
            },
        }
    }
}

impl Clone for SqlType {
    fn clone(&self) -> (r: Self)
        ensures
            r == *self,
        decreases self,
    {
        match self {
            SqlType::UInt8 => SqlType::UInt8,
            SqlType::UInt16 => SqlType::UInt16,
            SqlType::UInt32 => SqlType::UInt32,
            SqlType::UInt64 => SqlType::UInt64,
            SqlType::Int8 => SqlType::Int8,
            SqlType::Int16 => SqlType::Int16,
            SqlType::Int32 => SqlType::Int32,
            SqlType::Int64 => SqlType::Int64,
            SqlType::Float32 => SqlType::Float32,
            SqlType::Float64 => SqlType::Float64,
            SqlType::String => SqlType::String,
            SqlType::FixedString(n) => SqlType::FixedString(*n),
            SqlType::Date => SqlType::Date,
            SqlType::DateTime => SqlType::DateTime,
            SqlType::Decimal(p, s) => SqlType::Decimal(*p, *s),
            SqlType::Nullable(inner) => {
                let t = (**inner).clone();
                SqlType::Nullable(Box::new(t))
            },
            SqlType::Array(inner) => {
                let t = (**inner).clone();
                SqlType::Array(Box::new(t))
            },
        }
    }
}

impl PartialEq for SqlType {
    fn eq(&self, other: &SqlType) -> (r: bool)
        decreases self,
    {
        match (self, other) {
            (SqlType::UInt8, SqlType::UInt8) => true,
            (SqlType::UInt16, SqlType::UInt16) => true,
            (SqlType::UInt32, SqlType::UInt32) => true,
            (SqlType::UInt64, SqlType::UInt64) => true,
            (SqlType::Int8, SqlType::Int8) => true,
            (SqlType::Int16, SqlType::Int16) => true,
            (SqlType::Int32, SqlType::Int32) => true,
            (SqlType::Int64, SqlType::Int64) => true,
            (SqlType::Float32, SqlType::Float32) => true,
            (SqlType::Float64, SqlType::Float64) => true,
            (SqlType::String, SqlType::String) => true,
            (SqlType::FixedString(a), SqlType::FixedString(b)) => *a == *b,
            (SqlType::Date, SqlType::Date) => true,
            (SqlType::DateTime, SqlType::DateTime) => true,
            (SqlType::Decimal(p, s), SqlType::Decimal(q, t)) => *p == *q && *s == *t,
            (SqlType::Nullable(a), SqlType::Nullable(b)) => (**a).eq(&**b),
            (SqlType::Array(a), SqlType::Array(b)) => (**a).eq(&**b),
            _ => false,
        }
    }
}

impl vstd::std_specs::cmp::PartialEqSpecImpl for SqlType {
    open spec fn obeys_eq_spec() -> bool {
        true
    }

    open spec fn eq_spec(&self, other: &SqlType) -> bool {
        *self == *other
    }
}

impl Eq for SqlType {}

} // verus!
