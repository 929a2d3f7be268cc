use chrono_tz::Tz;
use column_core::column::column_data::{find_chunk, growth_of};
use column_core::column::string_pool::StringPool;
use column_core::column::{new_column, Column, Simple};
use std::collections::HashMap;
use std::sync::Arc;
use column_core::column::numeric::{Primitive, VectorColumnData};
use column_core::column::{ColumnData, Either};
use column_core::decimal::NoBits;
use column_core::errors::{DriverError, Error, FromSqlError};
use column_core::naming::same_text;
use column_core::types::{push_decimal, SqlType};
use column_core::value::Value;
use column_core::wire::{encode_row, encode_values};

#[test]
fn find_chunk_brackets() {
    let index = vec![0usize, 3, 8, 10];
    let parts = [0, 0, 0, 1, 1, 1, 1, 1, 2, 2];
    for (row, part) in parts.iter().enumerate() {
        assert_eq!(find_chunk(&index, row), *part);
    }
    let with_empty = vec![0usize, 0, 2, 2, 2, 5];
    assert_eq!(find_chunk(&with_empty, 0), 1);
    assert_eq!(find_chunk(&with_empty, 1), 1);
    assert_eq!(find_chunk(&with_empty, 2), 4);
    assert_eq!(find_chunk(&with_empty, 4), 4);
    assert_eq!(find_chunk(&vec![0usize, 1], 0), 0);
}

#[test]
fn widths_hold_and_saturate() {
    assert!(NoBits::N32.fits(i32::MAX as i128));
    assert!(NoBits::N32.fits(i32::MIN as i128));
    assert!(!NoBits::N32.fits(i32::MAX as i128 + 1));
    assert!(!NoBits::N32.fits(i32::MIN as i128 - 1));
    assert!(NoBits::N64.fits(i64::MIN as i128));
    assert!(!NoBits::N64.fits(i64::MAX as i128 + 1));
    assert!(NoBits::N128.fits(i128::MIN));
    assert_eq!(NoBits::N32.saturate(5_000_000_000), i32::MAX as i128);
    assert_eq!(NoBits::N32.saturate(-5_000_000_000), i32::MIN as i128);
    assert_eq!(NoBits::N32.saturate(-7), -7);
    assert_eq!(NoBits::N64.saturate(i128::MAX), i64::MAX as i128);
    assert_eq!(NoBits::N64.saturate(i128::MIN), i64::MIN as i128);
    assert_eq!(NoBits::N128.saturate(i128::MIN), i128::MIN);
}

#[test]
fn numbers_as_unsigned_readings() {
    assert_eq!(<u8 as Primitive>::size(), 1);
    assert_eq!(<i16 as Primitive>::size(), 2);
    assert_eq!(<u32 as Primitive>::size(), 4);
    assert_eq!(<i64 as Primitive>::size(), 8);
    assert_eq!(<i128 as Primitive>::size(), 16);
    assert_eq!((-1i8).to_raw(), 0xff);
    assert_eq!(i8::MIN.to_raw(), 0x80);
    assert_eq!(127i8.to_raw(), 0x7f);
    assert_eq!((-2i32).to_raw(), 0xffff_fffe);
    assert_eq!(i64::MIN.to_raw(), 0x8000_0000_0000_0000);
    assert_eq!((-1i128).to_raw(), u128::MAX);
    assert_eq!(i128::MIN.to_raw(), 1u128 << 127);
    assert_eq!(u64::MAX.to_raw(), u64::MAX as u128);
    assert_eq!(<i8 as Primitive>::from_raw(0xff), -1);
    assert_eq!(<i8 as Primitive>::from_raw(0x80), i8::MIN);
    assert_eq!(<i16 as Primitive>::from_raw(0x8001), i16::MIN + 1);
    assert_eq!(<i128 as Primitive>::from_raw(u128::MAX), -1);
    assert_eq!(<i128 as Primitive>::from_raw(1u128 << 127), i128::MIN);
    assert_eq!(<u16 as Primitive>::from_raw(0xffff), u16::MAX);
    for x in [i32::MIN, -1, 0, 1, i32::MAX] {
        assert_eq!(<i32 as Primitive>::from_raw(x.to_raw()), x);
        assert_eq!(x.to_raw(), x as u32 as u128);
    }
}

#[test]
fn vector_save_and_load() {
    let mut v: VectorColumnData<i16> = VectorColumnData::new();
    for x in [1i16, -1, 256, i16::MIN] {
        v.push(x);
    }
    assert_eq!(v.len(), 4);
    assert_eq!(v.at(3), i16::MIN);
    assert_eq!(v.as_slice(), &[1i16, -1, 256, i16::MIN][..]);
    let mut out = vec![0xee];
    v.save(&mut out, 1, 2);
    assert_eq!(out, vec![0xee, 0xff, 0xff, 0x00, 0x01]);
    v.save(&mut out, 4, 0);
    assert_eq!(out.len(), 5);
    let (back, end) = VectorColumnData::<i16>::load(&out, 1, 2).unwrap();
    assert_eq!(end, 5);
    assert_eq!(back.as_slice(), &[-1i16, 256][..]);
    assert_eq!(
        VectorColumnData::<i16>::load(&out, 1, 3).err(),
        Some(Error::Driver(DriverError::UnexpectedEof))
    );
    assert_eq!(
        VectorColumnData::<i16>::load(&out, 1, usize::MAX).err(),
        Some(Error::Driver(DriverError::UnexpectedEof))
    );
    let (none, end) = VectorColumnData::<u64>::load(&out, 5, 0).unwrap();
    assert_eq!((none.len(), end), (0, 5));
    let copy = v.clone_instance();
    assert_eq!(copy.as_slice(), v.as_slice());
}

#[test]
fn storage_collects_and_tells_its_layout() {
    let mut data = ColumnData::empty(&SqlType::UInt8, Tz::UTC);
    for x in 0..5u8 {
        data.push(Value::UInt8(x)).unwrap();
    }
    assert_eq!(data.collect(1, 3), vec![Value::UInt8(1), Value::UInt8(2), Value::UInt8(3)]);
    assert_eq!(data.collect(5, 0), Vec::<Value>::new());
    assert!(data.holds_rows());
    let copy = data.clone_instance();
    assert_eq!(copy.len(), 5);
    assert_eq!(copy.at(4), Value::UInt8(4));
    assert!(copy.holds_rows());
    let window = ColumnData::Chunk { data: std::sync::Arc::new(copy), start: 1, end: 4 };
    assert!(!window.holds_rows());
    assert_eq!(window.len(), 3);
    assert_eq!(window.at(0), Value::UInt8(1));
    let mut window = window;
    assert_eq!(
        window.push(Value::UInt8(1)),
        Err(Error::FromSql(FromSqlError::UnsupportedOperation))
    );
    let over_window = ColumnData::Nullable { nulls: vec![0, 0, 0], inner: Box::new(window) };
    assert!(!over_window.holds_rows());
    assert_eq!(over_window.len(), 3);
    assert_eq!(
        over_window.at(2),
        Value::Nullable(Either::Right(Box::new(Value::UInt8(3))))
    );
}

#[test]
fn rows_stand_one_after_the_other_or_not() {
    assert!(SqlType::UInt8.is_row_wise());
    assert!(SqlType::String.is_row_wise());
    assert!(SqlType::FixedString(2).is_row_wise());
    assert!(SqlType::Decimal(9, 1).is_row_wise());
    assert!(!SqlType::Nullable(Box::new(SqlType::UInt8)).is_row_wise());
    assert!(!SqlType::Array(Box::new(SqlType::UInt8)).is_row_wise());
}

#[test]
fn encoding_value_by_value() {
    let mut out = Vec::new();
    encode_row(&mut out, &SqlType::Int16, &Value::Int16(-2));
    encode_row(&mut out, &SqlType::String, &Value::String(b"ab".to_vec()));
    encode_row(&mut out, &SqlType::FixedString(2), &Value::String(b"cd".to_vec()));
    encode_row(&mut out, &SqlType::Float32, &Value::Float32(0x3fc0_0000));
    encode_row(&mut out, &SqlType::Date, &Value::Date(0x0102));
    assert_eq!(
        out,
        vec![0xfe, 0xff, 2, b'a', b'b', b'c', b'd', 0x00, 0x00, 0xc0, 0x3f, 0x02, 0x01]
    );
    let t = SqlType::Array(Box::new(SqlType::Nullable(Box::new(SqlType::UInt8))));
    let item = SqlType::Nullable(Box::new(SqlType::UInt8));
    let values = vec![
        Value::Array(
            item.clone(),
            vec![
                Value::Nullable(Either::Right(Box::new(Value::UInt8(9)))),
                Value::Nullable(Either::Left(SqlType::UInt8)),
            ],
        ),
        Value::Array(item.clone(), vec![]),
    ];
    let mut out = Vec::new();
    encode_values(&mut out, &t, &values);
    let mut expected = vec![2, 0, 0, 0, 0, 0, 0, 0, 2, 0, 0, 0, 0, 0, 0, 0];
    expected.extend_from_slice(&[0, 1, 9, 0]);
    assert_eq!(out, expected);
    let mut none = Vec::new();
    encode_values(&mut none, &t, &vec![]);
    assert_eq!(none, Vec::<u8>::new());
}

#[test]
fn decimal_digits_of_numbers() {
    let cases: Vec<(u64, &str)> =
        vec![(0, "0"), (7, "7"), (10, "10"), (909, "909"), (u64::MAX, "18446744073709551615")];
    for (n, digits) in cases {
        let mut text = String::from("x");
        push_decimal(&mut text, n);
        assert_eq!(text, format!("x{}", digits));
    }
}

#[test]
fn texts_compare_by_content() {
    assert!(same_text("", ""));
    assert!(same_text("abc", "abc"));
    assert!(!same_text("abc", "abd"));
    assert!(!same_text("abc", "ab"));
    assert!(same_text("h\u{e9}", "h\u{e9}"));
    assert!(!same_text("h\u{e9}", "he"));
}

#[test]
fn growth_of_values() {
    let nullable = |t: SqlType| SqlType::Nullable(Box::new(t));
    let array = |t: SqlType| SqlType::Array(Box::new(t));
    let row = |t: SqlType, items: Vec<Value>| Value::Array(t, items);
    assert_eq!(growth_of(&SqlType::UInt8, &Value::UInt8(1)), Some(1));
    assert_eq!(growth_of(&SqlType::String, &Value::String(vec![1, 2, 3])), Some(1));
    assert_eq!(
        growth_of(&nullable(SqlType::UInt8), &Value::Nullable(Either::Left(SqlType::UInt8))),
        Some(1)
    );
    assert_eq!(
        growth_of(
            &nullable(array(SqlType::UInt8)),
            &Value::Nullable(Either::Left(array(SqlType::UInt8)))
        ),
        Some(0)
    );
    let t = array(array(SqlType::UInt8));
    let v = row(
        array(SqlType::UInt8),
        vec![
            row(SqlType::UInt8, vec![Value::UInt8(1), Value::UInt8(2)]),
            row(SqlType::UInt8, vec![]),
            row(SqlType::UInt8, vec![Value::UInt8(3)]),
        ],
    );
    assert_eq!(growth_of(&t, &v), Some(3));
    assert_eq!(growth_of(&array(SqlType::UInt8), &row(SqlType::UInt8, vec![])), Some(0));
    let mut data = ColumnData::empty(&t, Tz::UTC);
    assert_eq!(data.leaf_len(), 0);
    data.push(v).unwrap();
    assert_eq!(data.leaf_len(), 3);
    assert_eq!(data.len(), 1);
}

#[test]
fn well_formed_storage_is_told_from_ill_formed() {
    let numbers = |values: Vec<u8>| ColumnData::UInt8(VectorColumnData { data: values });
    let shared = |data: ColumnData| Arc::new(data);
    let good = vec![
        numbers(vec![1, 2]),
        ColumnData::empty(&SqlType::String, Tz::UTC),
        ColumnData::FixedString { buffer: vec![1, 2, 3, 4], str_len: 2, rows: 2 },
        ColumnData::FixedString { buffer: vec![], str_len: 0, rows: 9 },
        ColumnData::FixedString { buffer: vec![], str_len: 7, rows: 0 },
        ColumnData::empty(&SqlType::Decimal(9, 30), Tz::UTC),
        ColumnData::empty(&SqlType::Decimal(18, 0), Tz::UTC),
        ColumnData::empty(&SqlType::Decimal(38, 0), Tz::UTC),
        ColumnData::Nullable { nulls: vec![0, 1], inner: Box::new(numbers(vec![1, 2])) },
        ColumnData::Array { offsets: vec![0, 2, 2], inner: Box::new(numbers(vec![1, 2])) },
        ColumnData::Array { offsets: vec![], inner: Box::new(numbers(vec![])) },
        ColumnData::Cast {
            column: shared(ColumnData::empty(&SqlType::String, Tz::UTC)),
            dst: SqlType::FixedString(0),
        },
        ColumnData::Chunk { data: shared(numbers(vec![1, 2, 3])), start: 1, end: 3 },
        ColumnData::Chunk { data: shared(numbers(vec![1, 2, 3])), start: 3, end: 3 },
        ColumnData::Concat {
            parts: vec![shared(numbers(vec![1])), shared(numbers(vec![])), shared(numbers(vec![2, 3]))],
            index: vec![0, 1, 1, 3],
        },
    ];
    for data in good {
        assert!(data.is_well_formed(), "{:?}", data.sql_type());
    }
    let wide = VectorColumnData::<i64>::new();
    let bad = vec![
        ColumnData::FixedString { buffer: vec![1, 2, 3], str_len: 2, rows: 2 },
        ColumnData::FixedString { buffer: vec![1], str_len: 0, rows: 1 },
        ColumnData::FixedString { buffer: vec![], str_len: usize::MAX, rows: 2 },
        ColumnData::Decimal32 { narrow: VectorColumnData::new(), precision: 10, scale: 0 },
        ColumnData::Decimal32 { narrow: VectorColumnData::new(), precision: 0, scale: 0 },
        ColumnData::Decimal64 { medium: wide, precision: 19, scale: 0 },
        ColumnData::Decimal128 { wide: VectorColumnData::new(), precision: 39, scale: 0 },
        ColumnData::Nullable { nulls: vec![0], inner: Box::new(numbers(vec![1, 2])) },
        ColumnData::Nullable {
            nulls: vec![0],
            inner: Box::new(ColumnData::FixedString { buffer: vec![1], str_len: 2, rows: 1 }),
        },
        ColumnData::Array { offsets: vec![1, 0, 2], inner: Box::new(numbers(vec![1, 2])) },
        ColumnData::Array { offsets: vec![0, 1], inner: Box::new(numbers(vec![1, 2])) },
        ColumnData::Array { offsets: vec![0, 3], inner: Box::new(numbers(vec![1, 2])) },
        ColumnData::Array { offsets: vec![], inner: Box::new(numbers(vec![1])) },
        ColumnData::Cast { column: shared(numbers(vec![1])), dst: SqlType::String },
        ColumnData::Cast {
            column: shared(ColumnData::empty(&SqlType::String, Tz::UTC)),
            dst: SqlType::String,
        },
        ColumnData::Cast {
            column: shared(ColumnData::empty(&SqlType::Decimal(9, 1), Tz::UTC)),
            dst: SqlType::Decimal(39, 1),
        },
        ColumnData::Chunk { data: shared(numbers(vec![1, 2, 3])), start: 2, end: 1 },
        ColumnData::Chunk { data: shared(numbers(vec![1, 2, 3])), start: 1, end: 4 },
        ColumnData::Concat { parts: vec![], index: vec![0] },
        ColumnData::Concat { parts: vec![shared(numbers(vec![1]))], index: vec![0] },
        ColumnData::Concat { parts: vec![shared(numbers(vec![1]))], index: vec![1, 2] },
        ColumnData::Concat { parts: vec![shared(numbers(vec![1]))], index: vec![0, 2] },
        ColumnData::Concat {
            parts: vec![shared(numbers(vec![1])), shared(ColumnData::empty(&SqlType::Int8, Tz::UTC))],
            index: vec![0, 1, 1],
        },
        ColumnData::Concat {
            parts: vec![shared(ColumnData::FixedString { buffer: vec![1], str_len: 2, rows: 1 })],
            index: vec![0, 1],
        },
    ];
    for (i, data) in bad.iter().enumerate() {
        assert!(!data.is_well_formed(), "storage {}", i);
    }
    let column: Column<Simple> =
        new_column("c", Arc::new(ColumnData::Nullable { nulls: vec![0], inner: Box::new(numbers(vec![])) }));
    assert!(!column.is_well_formed());
    let column: Column<Simple> = new_column("c", Arc::new(numbers(vec![1])));
    assert!(column.is_well_formed());
}

#[test]
fn well_formed_pool_is_told_from_ill_formed() {
    let mut pool = StringPool::new();
    assert!(pool.is_well_formed());
    for word in ["a", "b", "a", ""] {
        pool.push(&word.as_bytes().to_vec());
    }
    assert!(pool.is_well_formed());
    assert!(pool.clone_instance().is_well_formed());
    let mut beyond = pool.clone_instance();
    beyond.rows.push(3);
    assert!(!beyond.is_well_formed());
    let mut twice = pool.clone_instance();
    twice.items.push(b"a".to_vec());
    assert!(!twice.is_well_formed());
    let mut unlisted = pool.clone_instance();
    unlisted.items.push(b"zz".to_vec());
    assert!(!unlisted.is_well_formed());
    let mut unindexed = pool.clone_instance();
    unindexed.index = HashMap::new();
    assert!(!unindexed.is_well_formed());
    let mut stray = pool.clone_instance();
    for list in stray.index.values_mut() {
        list.push(99);
    }
    assert!(stray.is_well_formed());
    assert_eq!(stray.find(&b"b".to_vec()), Some(1));
    assert_eq!(stray.find(&b"c".to_vec()), None);
    stray.push(&b"b".to_vec());
    assert_eq!(stray.distinct(), 3);
}
