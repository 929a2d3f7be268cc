use chrono_tz::Tz;
use column_core::column::iter::SimpleIterable;
use column_core::column::{new_column, Column, ColumnData, Complex, Either, Simple};
use column_core::decimal::Decimal;
use column_core::errors::{Error, FromSqlError};
use column_core::types::SqlType;
use column_core::value::{bytes_eq, bytes_resized, bytes_slice, Value};
use std::sync::Arc;

fn column_of(name: &str, t: SqlType, values: Vec<Value>) -> Column<Simple> {
    let mut column: Column<Simple> = new_column(name, Arc::new(ColumnData::empty(&t, Tz::UTC)));
    for v in values {
        column.push(v).unwrap();
    }
    column
}

fn nullable(t: SqlType) -> SqlType {
    SqlType::Nullable(Box::new(t))
}

fn array(t: SqlType) -> SqlType {
    SqlType::Array(Box::new(t))
}

fn text(s: &str) -> Value {
    Value::String(s.as_bytes().to_vec())
}

#[test]
fn simple_names() {
    let cases = vec![
        ("UInt8", SqlType::UInt8),
        ("UInt16", SqlType::UInt16),
        ("UInt32", SqlType::UInt32),
        ("UInt64", SqlType::UInt64),
        ("Int8", SqlType::Int8),
        ("Int16", SqlType::Int16),
        ("Int32", SqlType::Int32),
        ("Int64", SqlType::Int64),
        ("Float32", SqlType::Float32),
        ("Float64", SqlType::Float64),
        ("String", SqlType::String),
        ("Date", SqlType::Date),
        ("DateTime", SqlType::DateTime),
    ];
    for (name, t) in cases {
        assert_eq!(SqlType::from_name(name), Some(t.clone()));
        assert_eq!(t.to_string(), name);
        assert!(t.is_supported());
    }
}

#[test]
fn names_with_arguments() {
    let cases = vec![
        ("FixedString(16)", SqlType::FixedString(16)),
        ("FixedString(1)", SqlType::FixedString(1)),
        ("FixedString(1000000)", SqlType::FixedString(1_000_000)),
        ("Decimal(18,4)", SqlType::Decimal(18, 4)),
        ("Decimal(1,0)", SqlType::Decimal(1, 0)),
        ("Decimal(38,38)", SqlType::Decimal(38, 38)),
        ("Decimal(9,9)", SqlType::Decimal(9, 9)),
        ("Decimal(5,6)", SqlType::Decimal(5, 6)),
        ("Decimal(19,255)", SqlType::Decimal(19, 255)),
        ("Decimal(38,0)", SqlType::Decimal(38, 0)),
        ("FixedString(0)", SqlType::FixedString(0)),
        ("Array(FixedString(0))", array(SqlType::FixedString(0))),
        ("Nullable(Decimal(1,200))", nullable(SqlType::Decimal(1, 200))),
        ("Nullable(String)", nullable(SqlType::String)),
        ("Array(UInt8)", array(SqlType::UInt8)),
        ("Nullable(Array(Decimal(18,4)))", nullable(array(SqlType::Decimal(18, 4)))),
        ("Array(Array(Nullable(FixedString(3))))", array(array(nullable(SqlType::FixedString(3))))),
        ("Array(Nullable(DateTime))", array(nullable(SqlType::DateTime))),
    ];
    for (name, t) in cases {
        assert_eq!(SqlType::from_name(name), Some(t.clone()));
        assert_eq!(t.to_string(), name);
        assert!(t.is_supported());
    }
}

#[test]
fn names_that_are_none() {
    let cases = vec![
        "",
        "uint8",
        "UInt8 ",
        " UInt8",
        "UInt",
        "UInt128",
        "Int",
        "Strin",
        "Stringg",
        "DateTime64",
        "FixedString",
        "FixedString()",
        "FixedString(00)",
        "FixedString(01)",
        "FixedString(-1)",
        "FixedString(3",
        "FixedString(3))",
        "FixedString(3a)",
        "FixedString(+3)",
        "FixedString(18446744073709551616)",
        "FixedString(99999999999999999999999)",
        "Decimal(18, 4)",
        "Decimal(18,4 )",
        "Decimal(0,0)",
        "Decimal(39,1)",
        "Decimal(5,256)",
        "Decimal(5,0256)",
        "Decimal(18)",
        "Decimal(18,)",
        "Decimal(,4)",
        "Decimal(18,4,2)",
        "Decimal(018,4)",
        "Decimal(18,04)",
        "Decimal(256,4)",
        "Nullable()",
        "Nullable(UInt8",
        "Nullable(UInt8)x",
        "Nullable(UInt9)",
        "Array(UInt8))",
        "Array",
        "Array()",
        "Array(FixedString(00))",
        "Str\u{ef}ng",
        "Nullable(Str\u{ef}ng)",
        ")",
        "(",
    ];
    for name in cases {
        assert_eq!(SqlType::from_name(name), None, "{}", name);
    }
}

#[test]
fn widest_fixed_string_name() {
    let name = format!("FixedString({})", usize::MAX);
    assert_eq!(SqlType::from_name(&name), Some(SqlType::FixedString(usize::MAX)));
    assert_eq!(SqlType::FixedString(usize::MAX).to_string(), name);
}

#[test]
fn unsupported_types() {
    assert!(SqlType::FixedString(0).is_supported());
    assert!(!SqlType::Decimal(0, 0).is_supported());
    assert!(!SqlType::Decimal(39, 0).is_supported());
    assert!(!SqlType::Decimal(255, 0).is_supported());
    assert!(SqlType::Decimal(4, 5).is_supported());
    assert!(SqlType::Decimal(1, 255).is_supported());
    assert!(SqlType::Decimal(38, 0).is_supported());
    assert!(nullable(array(SqlType::FixedString(0))).is_supported());
    assert!(nullable(array(SqlType::FixedString(2))).is_supported());
    assert!(!nullable(array(SqlType::Decimal(0, 0))).is_supported());
    assert!(SqlType::FixedString(0).is_zero_width());
    assert!(!SqlType::FixedString(1).is_zero_width());
    assert!(!nullable(SqlType::FixedString(0)).is_zero_width());
    assert!(!SqlType::String.is_zero_width());
    assert_eq!(SqlType::Decimal(0, 0).to_string(), "Decimal(0,0)");
    assert_eq!(SqlType::FixedString(0).to_string(), "FixedString(0)");
    assert_eq!(SqlType::Decimal(255, 100).to_string(), "Decimal(255,100)");
}

#[test]
fn type_equality_and_clone() {
    let t = nullable(array(SqlType::Decimal(18, 4)));
    assert_eq!(t.clone(), t);
    assert_ne!(t, nullable(array(SqlType::Decimal(18, 5))));
    assert_ne!(t, array(nullable(SqlType::Decimal(18, 4))));
    assert_ne!(SqlType::FixedString(3), SqlType::FixedString(4));
    assert_ne!(SqlType::UInt8, SqlType::Int8);
    assert_ne!(SqlType::Float32, SqlType::UInt32);
}

#[test]
fn value_equality_and_clone() {
    let values = vec![
        Value::UInt8(1),
        Value::Int8(1),
        Value::UInt32(1),
        Value::Float32(1),
        Value::Date(1),
        Value::DateTime(1),
        text("a"),
        text("b"),
        text(""),
        Value::Decimal(Decimal { underlying: 1, precision: 9, scale: 1 }),
        Value::Decimal(Decimal { underlying: 1, precision: 9, scale: 2 }),
        Value::Nullable(Either::Left(SqlType::UInt8)),
        Value::Nullable(Either::Left(SqlType::Int8)),
        Value::Nullable(Either::Right(Box::new(Value::UInt8(1)))),
        Value::Array(SqlType::UInt8, vec![]),
        Value::Array(SqlType::Int8, vec![]),
        Value::Array(SqlType::UInt8, vec![Value::UInt8(1)]),
        Value::Array(SqlType::UInt8, vec![Value::UInt8(1), Value::UInt8(2)]),
        Value::Array(SqlType::UInt8, vec![Value::UInt8(2), Value::UInt8(1)]),
    ];
    for (i, a) in values.iter().enumerate() {
        assert_eq!(&a.clone(), a);
        for (j, b) in values.iter().enumerate() {
            assert_eq!(a == b, i == j, "{:?} {:?}", a, b);
        }
    }
}

#[test]
fn value_types() {
    assert_eq!(Value::UInt64(1).sql_type(), SqlType::UInt64);
    assert_eq!(text("x").sql_type(), SqlType::String);
    assert_eq!(
        Value::Decimal(Decimal { underlying: 1, precision: 18, scale: 4 }).sql_type(),
        SqlType::Decimal(18, 4)
    );
    assert_eq!(Value::Nullable(Either::Left(SqlType::Date)).sql_type(), nullable(SqlType::Date));
    assert_eq!(
        Value::Nullable(Either::Right(Box::new(text("x")))).sql_type(),
        nullable(SqlType::String)
    );
    assert_eq!(Value::Array(SqlType::Int16, vec![]).sql_type(), array(SqlType::Int16));
}

#[test]
fn value_defaults() {
    assert_eq!(Value::default_for(&SqlType::UInt8), Value::UInt8(0));
    assert_eq!(Value::default_for(&SqlType::Int64), Value::Int64(0));
    assert_eq!(Value::default_for(&SqlType::Float64), Value::Float64(0));
    assert_eq!(Value::default_for(&SqlType::String), text(""));
    assert_eq!(Value::default_for(&SqlType::FixedString(2)), Value::String(vec![0, 0]));
    assert_eq!(Value::default_for(&SqlType::Date), Value::Date(0));
    assert_eq!(
        Value::default_for(&SqlType::Decimal(9, 2)),
        Value::Decimal(Decimal { underlying: 0, precision: 9, scale: 2 })
    );
    assert_eq!(
        Value::default_for(&nullable(SqlType::String)),
        Value::Nullable(Either::Left(SqlType::String))
    );
    assert_eq!(
        Value::default_for(&array(SqlType::UInt8)),
        Value::Array(SqlType::UInt8, vec![])
    );
}

#[test]
fn value_acceptance_and_storage() {
    assert!(text("abcdef").is_accepted(&SqlType::FixedString(3)));
    assert!(text("abcdef").is_accepted(&SqlType::String));
    assert!(!text("abcdef").is_accepted(&SqlType::UInt8));
    assert!(!Value::UInt8(1).is_accepted(&SqlType::Int8));
    assert!(Value::Float32(7).is_accepted(&SqlType::Float32));
    assert!(!Value::Float32(7).is_accepted(&SqlType::UInt32));
    assert_eq!(text("abcdef").to_stored(&SqlType::FixedString(3)), text("abc"));
    assert_eq!(text("a").to_stored(&SqlType::FixedString(3)), Value::String(vec![b'a', 0, 0]));
    assert_eq!(text("a").to_stored(&SqlType::String), text("a"));
    let rows = Value::Array(SqlType::FixedString(2), vec![text("a"), text("bcd")]);
    assert!(rows.is_accepted(&array(SqlType::FixedString(2))));
    assert_eq!(
        rows.to_stored(&array(SqlType::FixedString(2))),
        Value::Array(SqlType::FixedString(2), vec![Value::String(vec![b'a', 0]), text("bc")])
    );
    let wrapped = Value::Nullable(Either::Right(Box::new(text("xyz"))));
    assert!(wrapped.is_accepted(&nullable(SqlType::FixedString(1))));
    assert_eq!(
        wrapped.to_stored(&nullable(SqlType::FixedString(1))),
        Value::Nullable(Either::Right(Box::new(text("x"))))
    );
    assert!(!Value::Nullable(Either::Left(SqlType::UInt8)).is_accepted(&nullable(SqlType::Int8)));
    assert!(!Value::Nullable(Either::Left(SqlType::UInt8)).is_accepted(&SqlType::UInt8));
}

#[test]
fn value_casts() {
    assert_eq!(text("ab").cast(&SqlType::FixedString(3)), Value::String(vec![b'a', b'b', 0]));
    assert_eq!(
        Value::Array(SqlType::UInt8, vec![Value::UInt8(104), Value::UInt8(105)])
            .cast(&SqlType::String),
        text("hi")
    );
    assert_eq!(
        text("hi").cast(&array(SqlType::UInt8)),
        Value::Array(SqlType::UInt8, vec![Value::UInt8(104), Value::UInt8(105)])
    );
    assert_eq!(
        Value::Decimal(Decimal { underlying: 15, precision: 9, scale: 1 })
            .cast(&SqlType::Decimal(9, 3)),
        Value::Decimal(Decimal { underlying: 1500, precision: 9, scale: 3 })
    );
    assert_eq!(Value::UInt8(3).cast(&SqlType::String), Value::UInt8(3));
}

#[test]
fn byte_helpers() {
    let a = b"hello".to_vec();
    assert!(bytes_eq(&a, &b"hello".to_vec()));
    assert!(!bytes_eq(&a, &b"hellp".to_vec()));
    assert!(!bytes_eq(&a, &b"hell".to_vec()));
    assert_eq!(bytes_slice(&a, 1, 4), b"ell".to_vec());
    assert_eq!(bytes_slice(&a, 2, 2), Vec::<u8>::new());
    assert_eq!(bytes_resized(&a, 2), b"he".to_vec());
    assert_eq!(bytes_resized(&a, 7), vec![b'h', b'e', b'l', b'l', b'o', 0, 0]);
    assert_eq!(bytes_resized(&a, 0), Vec::<u8>::new());
}

#[test]
fn typed_rows_of_a_simple_column() {
    let column = column_of(
        "n",
        SqlType::UInt64,
        vec![Value::UInt64(1), Value::UInt64(2), Value::UInt64(3)],
    );
    assert_eq!(column.iter::<u64>().unwrap(), &[1u64, 2, 3][..]);
    let sum: u64 = column.iter::<u64>().unwrap().iter().sum();
    assert_eq!(sum, 6);
    let signed = column_of("i", SqlType::Int16, vec![Value::Int16(-5), Value::Int16(5)]);
    assert_eq!(signed.iter::<i16>().unwrap(), &[-5i16, 5][..]);
    let empty = column_of("e", SqlType::UInt8, vec![]);
    assert_eq!(empty.iter::<u8>().unwrap(), &[] as &[u8]);
    assert_eq!(<u64 as SimpleIterable>::type_of_rows(), SqlType::UInt64);
}

#[test]
fn typed_rows_of_another_type_name_both_types() {
    let column = column_of("n", SqlType::UInt64, vec![Value::UInt64(1)]);
    assert_eq!(
        column.iter::<u32>().err(),
        Some(Error::FromSql(FromSqlError::InvalidType {
            src: "UInt64".to_string(),
            dst: "UInt32".to_string(),
        }))
    );
    let floats = column_of("f", SqlType::Float32, vec![Value::Float32(0)]);
    assert_eq!(
        floats.iter::<u32>().err(),
        Some(Error::FromSql(FromSqlError::InvalidType {
            src: "Float32".to_string(),
            dst: "UInt32".to_string(),
        }))
    );
    let text_column = column_of("s", SqlType::String, vec![text("a")]);
    assert!(text_column.iter::<u8>().is_err());
}

#[test]
fn typed_rows_of_a_view_are_not_supported() {
    let column = column_of("n", SqlType::UInt8, vec![Value::UInt8(1), Value::UInt8(2)]);
    let window: Column<Complex> = column.slice(0..1);
    let data: Arc<ColumnData> =
        <Column<Complex> as column_core::column::ColumnFrom>::column_from::<
            column_core::column::ArcColumnWrapper,
        >(window);
    let as_simple: Column<Simple> = new_column("n", data);
    assert_eq!(
        as_simple.iter::<u8>().err(),
        Some(Error::FromSql(FromSqlError::UnsupportedOperation))
    );
}

#[test]
fn kinds_have_defaults() {
    let _simple: Simple = Simple::default();
    let _complex: Complex = Complex::default();
    let either: Either<u8, u16> = Either::Left(1);
    assert_eq!(either.clone(), Either::Left(1));
    assert_ne!(either, Either::Right(1));
}
