use chrono_tz::Tz;
use column_core::binary::Encoder;
use column_core::column::{
    new_column, ArcColumnWrapper, Column, ColumnData, ColumnFrom, Either, Oversize, Simple,
};
use column_core::decimal::{Decimal, NoBits};
use column_core::errors::{Error, FromSqlError};
use column_core::types::SqlType;
use column_core::value::Value;
use std::sync::Arc;

fn column_of(name: &str, t: SqlType, values: Vec<Value>) -> Column<Simple> {
    let mut column: Column<Simple> = new_column(name, Arc::new(ColumnData::empty(&t, Tz::UTC)));
    for v in values {
        column.push(v).unwrap();
    }
    column
}

fn text(s: &str) -> Value {
    Value::String(s.as_bytes().to_vec())
}

fn bytes_row(s: &str) -> Value {
    Value::Array(SqlType::UInt8, s.bytes().map(Value::UInt8).collect())
}

fn decimal(underlying: i128, precision: u8, scale: u8) -> Value {
    Value::Decimal(Decimal { underlying, precision, scale })
}

fn nullable(t: SqlType) -> SqlType {
    SqlType::Nullable(Box::new(t))
}

fn array(t: SqlType) -> SqlType {
    SqlType::Array(Box::new(t))
}

fn some(v: Value) -> Value {
    Value::Nullable(Either::Right(Box::new(v)))
}

fn null(t: SqlType) -> Value {
    Value::Nullable(Either::Left(t))
}

fn sample(t: &SqlType) -> Column<Simple> {
    column_of("c", t.clone(), vec![])
}

#[test]
fn decimal_width_by_precision() {
    assert_eq!(NoBits::from_precision(9), Some(NoBits::N32));
    assert_eq!(NoBits::from_precision(10), Some(NoBits::N64));
    assert_eq!(NoBits::from_precision(18), Some(NoBits::N64));
    assert_eq!(NoBits::from_precision(19), Some(NoBits::N128));
    assert_eq!(NoBits::from_precision(38), Some(NoBits::N128));
    assert_eq!(NoBits::from_precision(1), Some(NoBits::N32));
    assert_eq!(NoBits::from_precision(0), None);
    assert_eq!(NoBits::from_precision(39), None);
    assert_eq!(NoBits::from_precision(255), None);
}

#[test]
fn decimal_storage_width_follows_precision() {
    assert!(matches!(
        ColumnData::empty(&SqlType::Decimal(9, 0), Tz::UTC),
        ColumnData::Decimal32 { .. }
    ));
    assert!(matches!(
        ColumnData::empty(&SqlType::Decimal(10, 0), Tz::UTC),
        ColumnData::Decimal64 { .. }
    ));
    assert!(matches!(
        ColumnData::empty(&SqlType::Decimal(18, 0), Tz::UTC),
        ColumnData::Decimal64 { .. }
    ));
    assert!(matches!(
        ColumnData::empty(&SqlType::Decimal(19, 0), Tz::UTC),
        ColumnData::Decimal128 { .. }
    ));
    assert!(matches!(
        ColumnData::empty(&SqlType::Decimal(38, 0), Tz::UTC),
        ColumnData::Decimal128 { .. }
    ));
}

#[test]
fn cast_to_own_type_is_the_column() {
    let column = column_of("c", SqlType::String, vec![text("a"), text("bc")]);
    let same = column.clone().cast_to(SqlType::String).unwrap();
    assert!(same.eq(&column));
    assert_eq!(same.name(), "c");
    assert_eq!(same.sql_type(), SqlType::String);
    assert!(same.iter::<u8>().is_err());
    let numbers = column_of("n", SqlType::UInt8, vec![Value::UInt8(1), Value::UInt8(2)]);
    let again = numbers.clone().cast_to(SqlType::UInt8).unwrap();
    assert!(again.eq(&numbers));
    assert_eq!(again.iter::<u8>().unwrap(), &[1u8, 2u8][..]);
}

#[test]
fn cast_string_to_fixed_string() {
    let column = column_of("c", SqlType::String, vec![text("ab"), text("abcd"), text("abcdefgh")]);
    let cast = column.cast_to(SqlType::FixedString(4)).unwrap();
    assert_eq!(cast.name(), "c");
    assert_eq!(cast.sql_type(), SqlType::FixedString(4));
    assert_eq!(cast.len(), 3);
    assert_eq!(cast.at(0), Value::String(vec![b'a', b'b', 0, 0]));
    assert_eq!(cast.at(1), text("abcd"));
    assert_eq!(cast.at(2), text("abcd"));
}

#[test]
fn cast_byte_array_to_string_and_back() {
    let column = column_of("c", array(SqlType::UInt8), vec![bytes_row("hi"), bytes_row("")]);
    let as_text = column.cast_to(SqlType::String).unwrap();
    assert_eq!(as_text.sql_type(), SqlType::String);
    assert_eq!(as_text.at(0), text("hi"));
    assert_eq!(as_text.at(1), text(""));
    let back = as_text.cast_to(array(SqlType::UInt8)).unwrap();
    assert_eq!(back.sql_type(), array(SqlType::UInt8));
    assert_eq!(back.at(0), bytes_row("hi"));
    assert_eq!(back.at(1), bytes_row(""));
}

#[test]
fn cast_decimal_rescales() {
    let column = column_of(
        "d",
        SqlType::Decimal(9, 2),
        vec![decimal(12345, 9, 2), decimal(-12345, 9, 2), decimal(0, 9, 2), decimal(199, 9, 2)],
    );
    let finer = column.clone().cast_to(SqlType::Decimal(18, 4)).unwrap();
    assert_eq!(finer.sql_type(), SqlType::Decimal(18, 4));
    assert_eq!(finer.at(0), decimal(1234500, 18, 4));
    assert_eq!(finer.at(1), decimal(-1234500, 18, 4));
    assert_eq!(finer.at(2), decimal(0, 18, 4));
    let coarser = column.clone().cast_to(SqlType::Decimal(9, 0)).unwrap();
    assert_eq!(coarser.at(0), decimal(123, 9, 0));
    assert_eq!(coarser.at(1), decimal(-123, 9, 0));
    assert_eq!(coarser.at(3), decimal(1, 9, 0));
    let same_scale = column.cast_to(SqlType::Decimal(38, 2)).unwrap();
    assert_eq!(same_scale.at(0), decimal(12345, 38, 2));
}

#[test]
fn cast_decimal_saturates_at_the_width() {
    let column = column_of(
        "d",
        SqlType::Decimal(9, 0),
        vec![decimal(2_000_000_000, 9, 0), decimal(-2_000_000_000, 9, 0), decimal(7, 9, 0)],
    );
    let cast = column.cast_to(SqlType::Decimal(9, 2)).unwrap();
    assert_eq!(cast.at(0), decimal(i32::MAX as i128, 9, 2));
    assert_eq!(cast.at(1), decimal(i32::MIN as i128, 9, 2));
    assert_eq!(cast.at(2), decimal(700, 9, 2));
    let wide = column_of(
        "w",
        SqlType::Decimal(38, 0),
        vec![decimal(i128::MAX / 5, 38, 0), decimal(i128::MIN / 5, 38, 0)],
    );
    let cast = wide.cast_to(SqlType::Decimal(38, 1)).unwrap();
    assert_eq!(cast.at(0), decimal(i128::MAX, 38, 1));
    assert_eq!(cast.at(1), decimal(i128::MIN, 38, 1));
}

#[test]
fn set_scale_exact_values() {
    let d = Decimal { underlying: -1999, precision: 9, scale: 3 };
    assert_eq!(d.set_scale(9, 0), Decimal { underlying: -1, precision: 9, scale: 0 });
    assert_eq!(d.set_scale(18, 5), Decimal { underlying: -199900, precision: 18, scale: 5 });
    assert_eq!(d.set_scale(9, 3), d);
    let least = Decimal { underlying: i128::MIN, precision: 38, scale: 1 };
    assert_eq!(
        least.set_scale(38, 0),
        Decimal { underlying: i128::MIN / 10, precision: 38, scale: 0 }
    );
    assert_eq!(least.set_scale(38, 1), least);
    let zero = Decimal { underlying: 0, precision: 38, scale: 0 };
    assert_eq!(zero.set_scale(38, 38), Decimal { underlying: 0, precision: 38, scale: 38 });
}

#[test]
fn cast_nullable_variants() {
    let column = column_of(
        "c",
        nullable(SqlType::String),
        vec![some(text("ab")), null(SqlType::String), some(text("abcdef"))],
    );
    let cast = column.cast_to(nullable(SqlType::FixedString(3))).unwrap();
    assert_eq!(cast.sql_type(), nullable(SqlType::FixedString(3)));
    assert_eq!(cast.at(0), some(Value::String(vec![b'a', b'b', 0])));
    assert_eq!(cast.at(1), null(SqlType::FixedString(3)));
    assert_eq!(cast.at(2), some(text("abc")));

    let decimals = column_of(
        "d",
        nullable(SqlType::Decimal(9, 1)),
        vec![null(SqlType::Decimal(9, 1)), some(decimal(15, 9, 1))],
    );
    let cast = decimals.cast_to(nullable(SqlType::Decimal(18, 3))).unwrap();
    assert_eq!(cast.at(0), null(SqlType::Decimal(18, 3)));
    assert_eq!(cast.at(1), some(decimal(1500, 18, 3)));

    let arrays = column_of(
        "a",
        nullable(array(SqlType::UInt8)),
        vec![some(bytes_row("xy")), null(array(SqlType::UInt8))],
    );
    let cast = arrays.cast_to(nullable(SqlType::String)).unwrap();
    assert_eq!(cast.at(0), some(text("xy")));
    assert_eq!(cast.at(1), null(SqlType::String));
    let back = cast.cast_to(nullable(array(SqlType::UInt8))).unwrap();
    assert_eq!(back.at(0), some(bytes_row("xy")));
    assert_eq!(back.at(1), null(array(SqlType::UInt8)));
}

#[test]
fn every_listed_cast_succeeds() {
    let pairs = vec![
        (SqlType::FixedString(5), SqlType::String),
        (SqlType::String, array(SqlType::UInt8)),
        (array(SqlType::UInt8), SqlType::String),
        (SqlType::Decimal(18, 4), SqlType::Decimal(9, 2)),
        (SqlType::Decimal(9, 2), SqlType::Decimal(38, 10)),
        (nullable(SqlType::FixedString(5)), nullable(SqlType::String)),
        (nullable(SqlType::String), nullable(array(SqlType::UInt8))),
        (nullable(array(SqlType::UInt8)), nullable(SqlType::String)),
        (nullable(SqlType::Decimal(18, 4)), nullable(SqlType::Decimal(9, 2))),
        (SqlType::FixedString(0), SqlType::String),
        (SqlType::FixedString(usize::MAX), SqlType::String),
        (nullable(SqlType::FixedString(0)), nullable(SqlType::String)),
        (SqlType::Decimal(9, 10), SqlType::Decimal(9, 2)),
        (SqlType::Decimal(19, 255), SqlType::Decimal(9, 2)),
        (SqlType::Decimal(1, 0), SqlType::Decimal(38, 38)),
        (SqlType::Decimal(38, 0), SqlType::Decimal(1, 255)),
        (nullable(SqlType::Decimal(5, 6)), nullable(SqlType::Decimal(9, 2))),
    ];
    for (dst, src) in pairs {
        assert!(SqlType::can_cast(&dst, &src));
        let cast = sample(&src).cast_to(dst.clone()).unwrap();
        assert_eq!(cast.sql_type(), dst);
        assert_eq!(cast.len(), 0);
    }
}

#[test]
fn every_other_cast_names_both_types() {
    let pairs = vec![
        (SqlType::String, SqlType::UInt8, "String", "UInt8"),
        (SqlType::UInt16, SqlType::UInt8, "UInt16", "UInt8"),
        (SqlType::String, SqlType::FixedString(3), "String", "FixedString(3)"),
        (SqlType::FixedString(4), SqlType::FixedString(3), "FixedString(4)", "FixedString(3)"),
        (SqlType::FixedString(3), array(SqlType::UInt8), "FixedString(3)", "Array(UInt8)"),
        (SqlType::String, array(SqlType::UInt16), "String", "Array(UInt16)"),
        (SqlType::Decimal(9, 2), SqlType::Int32, "Decimal(9,2)", "Int32"),
        (SqlType::Decimal(39, 2), SqlType::Decimal(9, 2), "Decimal(39,2)", "Decimal(9,2)"),
        (SqlType::Decimal(0, 0), SqlType::Decimal(9, 2), "Decimal(0,0)", "Decimal(9,2)"),
        (
            nullable(SqlType::Decimal(39, 0)),
            nullable(SqlType::Decimal(9, 2)),
            "Nullable(Decimal(39,0))",
            "Nullable(Decimal(9,2))",
        ),
        (nullable(SqlType::String), SqlType::String, "Nullable(String)", "String"),
        (SqlType::String, nullable(SqlType::String), "String", "Nullable(String)"),
        (
            nullable(nullable(SqlType::FixedString(2))),
            nullable(nullable(SqlType::String)),
            "Nullable(Nullable(FixedString(2)))",
            "Nullable(Nullable(String))",
        ),
        (SqlType::DateTime, SqlType::Date, "DateTime", "Date"),
        (SqlType::Float64, SqlType::Float32, "Float64", "Float32"),
    ];
    for (dst, src, dst_name, src_name) in pairs {
        assert!(!SqlType::can_cast(&dst, &src));
        let r = sample(&src).cast_to(dst);
        match r {
            Err(e) => assert_eq!(
                e,
                Error::FromSql(FromSqlError::InvalidType {
                    src: src_name.to_string(),
                    dst: dst_name.to_string(),
                })
            ),
            Ok(_) => panic!("cast from {} to {} went through", src_name, dst_name),
        }
    }
}

#[test]
fn cast_keeps_the_source_column() {
    let column = column_of("c", SqlType::String, vec![text("abcdef")]);
    let cast = column.clone().cast_to(SqlType::FixedString(2)).unwrap();
    assert_eq!(cast.at(0), text("ab"));
    assert_eq!(column.at(0), text("abcdef"));
    assert_eq!(column.sql_type(), SqlType::String);
}

#[test]
fn slice_and_concat_of_a_cast() {
    let a = column_of("c", SqlType::String, vec![text("one"), text("two"), text("three")]);
    let cast = a.cast_to(SqlType::FixedString(3)).unwrap();
    let window = cast.slice(1..3);
    assert_eq!(window.sql_type(), SqlType::FixedString(3));
    assert_eq!(window.at(0), text("two"));
    assert_eq!(window.at(1), text("thr"));
}

#[test]
fn cast_that_rejects_long_strings() {
    let long = column_of("c", SqlType::String, vec![text("ab"), text("abcd")]);
    assert_eq!(
        long.clone().cast_to_with(SqlType::FixedString(3), Oversize::Reject).err(),
        Some(Error::FromSql(FromSqlError::OutOfRange))
    );
    let cut = long.clone().cast_to_with(SqlType::FixedString(3), Oversize::Cut).unwrap();
    assert_eq!(cut.at(1), text("abc"));
    let fits = long.clone().cast_to_with(SqlType::FixedString(4), Oversize::Reject).unwrap();
    assert_eq!(fits.at(0), Value::String(vec![b'a', b'b', 0, 0]));
    assert_eq!(fits.at(1), text("abcd"));
    let same = long.clone().cast_to_with(SqlType::String, Oversize::Reject).unwrap();
    assert!(same.eq(&long));
    assert_eq!(
        long.clone().cast_to_with(SqlType::UInt8, Oversize::Reject).err(),
        Some(Error::FromSql(FromSqlError::InvalidType {
            src: "String".to_string(),
            dst: "UInt8".to_string(),
        }))
    );
    let wrapped = column_of(
        "n",
        nullable(SqlType::String),
        vec![null(SqlType::String), some(text("abcd"))],
    );
    assert_eq!(
        wrapped.clone().cast_to_with(nullable(SqlType::FixedString(3)), Oversize::Reject).err(),
        Some(Error::FromSql(FromSqlError::OutOfRange))
    );
    assert!(wrapped.cast_to_with(nullable(SqlType::FixedString(4)), Oversize::Reject).is_ok());
    let empty = column_of("e", SqlType::String, vec![]);
    assert!(empty.cast_to_with(SqlType::FixedString(1), Oversize::Reject).is_ok());
    assert!(text("abcd").is_cut_by(&SqlType::FixedString(3)));
    assert!(!text("abc").is_cut_by(&SqlType::FixedString(3)));
    assert!(!text("abcd").is_cut_by(&SqlType::String));
}

#[test]
fn time_zone_of_dated_columns() {
    let dates = ColumnData::empty(&SqlType::DateTime, Tz::Europe__Moscow);
    assert_eq!(dates.timezone(), Some(Tz::Europe__Moscow));
    let wrapped = ColumnData::empty(&nullable(array(SqlType::Date)), Tz::Asia__Tokyo);
    assert_eq!(wrapped.timezone(), Some(Tz::Asia__Tokyo));
    assert_eq!(ColumnData::empty(&SqlType::UInt8, Tz::Asia__Tokyo).timezone(), None);
    assert_eq!(ColumnData::empty(&nullable(SqlType::String), Tz::UTC).timezone(), None);

    let mut bytes = vec![1, b't', 8];
    bytes.extend_from_slice(b"DateTime");
    bytes.extend_from_slice(&[1, 0, 0, 0, 2, 0, 0, 0]);
    let (column, _): (Column<Simple>, usize) =
        Column::read(&bytes, 0, 2, Tz::America__New_York).unwrap();
    assert_eq!(column.timezone(), Some(Tz::America__New_York));
    assert_eq!(column.at(1), Value::DateTime(2));
    let mut pushed = column.clone();
    pushed.push(Value::DateTime(3)).unwrap();
    assert_eq!(pushed.timezone(), Some(Tz::America__New_York));
    assert_eq!(column.slice(0..1).timezone(), Some(Tz::America__New_York));
    assert_eq!(Column::concat(&[&column, &pushed]).timezone(), Some(Tz::America__New_York));
    assert_eq!(sample(&SqlType::Int8).timezone(), None);
}

fn body_of(column: &Column<Simple>) -> Vec<u8> {
    assert!(column.is_well_formed());
    let data: Arc<ColumnData> =
        <Column<Simple> as ColumnFrom>::column_from::<ArcColumnWrapper>(column.clone());
    let mut out = Vec::new();
    data.save(&mut out, 0, column.len());
    out
}

#[test]
fn cast_to_a_fixed_string_of_no_width() {
    let column = column_of("c", SqlType::String, vec![text("ab"), text(""), text("xyz")]);
    let cast = column.clone().cast_to(SqlType::FixedString(0)).unwrap();
    assert_eq!(cast.sql_type(), SqlType::FixedString(0));
    assert_eq!(cast.name(), "c");
    assert_eq!(cast.len(), 3);
    for i in 0..3 {
        assert_eq!(cast.at(i), text(""));
    }
    assert_eq!(body_of(&cast), Vec::<u8>::new());
    let mut encoder = Encoder::new();
    cast.write(&mut encoder);
    let bytes = encoder.get_buffer();
    let (back, end): (Column<Simple>, usize) = Column::read(&bytes, 0, 3, Tz::UTC).unwrap();
    assert_eq!(end, bytes.len());
    assert!(back.eq(&cast));
    assert_eq!(back.sql_type(), SqlType::FixedString(0));

    let empty_rows = column_of("e", SqlType::String, vec![text(""), text("")]);
    let kept = empty_rows.cast_to_with(SqlType::FixedString(0), Oversize::Reject).unwrap();
    assert_eq!(kept.len(), 2);
    assert_eq!(
        column.cast_to_with(SqlType::FixedString(0), Oversize::Reject).err(),
        Some(Error::FromSql(FromSqlError::OutOfRange))
    );
}

#[test]
fn cast_to_a_fixed_string_pads_with_zero_bytes_on_the_wire() {
    let column = column_of("c", SqlType::String, vec![text("a"), text("abc"), text("")]);
    let cast = column.cast_to(SqlType::FixedString(3)).unwrap();
    assert_eq!(body_of(&cast), vec![b'a', 0, 0, b'a', b'b', b'c', 0, 0, 0]);
}

#[test]
fn cast_to_a_decimal_with_more_scale_than_precision() {
    let column = column_of(
        "d",
        SqlType::Decimal(9, 2),
        vec![decimal(12345, 9, 2), decimal(-1, 9, 2), decimal(0, 9, 2)],
    );
    let cast = column.clone().cast_to(SqlType::Decimal(19, 25)).unwrap();
    assert_eq!(cast.sql_type(), SqlType::Decimal(19, 25));
    assert_eq!(cast.len(), 3);
    let lift: i128 = 10i128.pow(23);
    assert_eq!(cast.at(0), decimal(12345 * lift, 19, 25));
    assert_eq!(cast.at(1), decimal(-lift, 19, 25));
    assert_eq!(cast.at(2), decimal(0, 19, 25));
    let body = body_of(&cast);
    assert_eq!(body.len(), 16 * 3);
    assert_eq!(body[0..16].to_vec(), (12345 * lift).to_le_bytes().to_vec());
    assert_eq!(body[16..32].to_vec(), (-lift).to_le_bytes().to_vec());
    assert_eq!(body[32..48].to_vec(), vec![0u8; 16]);

    let narrow = column.clone().cast_to(SqlType::Decimal(9, 10)).unwrap();
    assert_eq!(narrow.sql_type(), SqlType::Decimal(9, 10));
    assert_eq!(narrow.at(0), decimal(i32::MAX as i128, 9, 10));
    assert_eq!(narrow.at(1), decimal(-100_000_000, 9, 10));
    assert_eq!(body_of(&narrow).len(), 4 * 3);

    let far = column.cast_to(SqlType::Decimal(19, 255)).unwrap();
    assert_eq!(far.at(0), decimal(i128::MAX, 19, 255));
    assert_eq!(far.at(1), decimal(i128::MIN, 19, 255));
    assert_eq!(far.at(2), decimal(0, 19, 255));
    let mut encoder = Encoder::new();
    far.write(&mut encoder);
    let bytes = encoder.get_buffer();
    let (back, _): (Column<Simple>, usize) = Column::read(&bytes, 0, 3, Tz::UTC).unwrap();
    assert!(back.eq(&far));
}

#[test]
fn cast_to_a_wider_decimal_uses_the_width_of_the_target() {
    let column = column_of("d", SqlType::Decimal(9, 2), vec![decimal(-2, 9, 2)]);
    for (p, width) in [(9u8, 4usize), (10, 8), (18, 8), (19, 16), (38, 16)] {
        let cast = column.clone().cast_to(SqlType::Decimal(p, 3)).unwrap();
        assert_eq!(cast.at(0), decimal(-20, p, 3));
        let body = body_of(&cast);
        assert_eq!(body.len(), width);
        assert_eq!(body[0], 0xec);
        assert!(body[1..].iter().all(|b| *b == 0xff));
    }
}

#[test]
fn cast_nullable_to_no_width_and_to_any_scale() {
    let column = column_of(
        "c",
        nullable(SqlType::String),
        vec![some(text("ab")), null(SqlType::String)],
    );
    let cast = column.cast_to(nullable(SqlType::FixedString(0))).unwrap();
    assert_eq!(cast.at(0), some(text("")));
    assert_eq!(cast.at(1), null(SqlType::FixedString(0)));
    assert_eq!(body_of(&cast), vec![0, 1]);
    let decimals = column_of(
        "d",
        nullable(SqlType::Decimal(9, 1)),
        vec![null(SqlType::Decimal(9, 1)), some(decimal(15, 9, 1))],
    );
    let cast = decimals.cast_to(nullable(SqlType::Decimal(5, 6))).unwrap();
    assert_eq!(cast.at(0), null(SqlType::Decimal(5, 6)));
    assert_eq!(cast.at(1), some(decimal(1_500_000, 5, 6)));
    assert_eq!(body_of(&cast), vec![1, 0, 0, 0, 0, 0, 0x60, 0xe3, 0x16, 0]);
}
