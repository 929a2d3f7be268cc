use chrono_tz::Tz;
use column_core::binary::{
    get_le, get_string, get_text, get_uvarint, put_le, put_string, put_uvarint, Encoder,
};
use column_core::column::{
    new_column, ArcColumnWrapper, BoxColumnWrapper, Column, ColumnData, ColumnFrom, Complex,
    Either, Simple,
};
use column_core::decimal::Decimal;
use column_core::errors::{DriverError, Error};
use column_core::types::SqlType;
use column_core::value::Value;
use std::sync::Arc;

fn column_of(name: &str, t: SqlType, values: Vec<Value>) -> Column<Simple> {
    let mut column: Column<Simple> = new_column(name, Arc::new(ColumnData::empty(&t, Tz::UTC)));
    for v in values {
        column.push(v).unwrap();
    }
    column
}

fn text(s: &str) -> Value {
    Value::String(s.as_bytes().to_vec())
}

fn decimal(underlying: i128, precision: u8, scale: u8) -> Value {
    Value::Decimal(Decimal { underlying, precision, scale })
}

fn nullable(t: SqlType) -> SqlType {
    SqlType::Nullable(Box::new(t))
}

fn array(t: SqlType) -> SqlType {
    SqlType::Array(Box::new(t))
}

fn some(v: Value) -> Value {
    Value::Nullable(Either::Right(Box::new(v)))
}

fn null(t: SqlType) -> Value {
    Value::Nullable(Either::Left(t))
}

fn row(t: SqlType, items: Vec<Value>) -> Value {
    Value::Array(t, items)
}

fn written(column: &Column<Simple>) -> Vec<u8> {
    let mut encoder = Encoder::new();
    column.write(&mut encoder);
    encoder.get_buffer()
}

fn round_trip(t: SqlType, values: Vec<Value>) {
    for count in [0usize, 1, values.len()] {
        let rows: Vec<Value> = values.iter().take(count).cloned().collect();
        let column = column_of("col", t.clone(), rows);
        let mut bytes = written(&column);
        let body_end = bytes.len();
        bytes.extend_from_slice(&[0xAA, 0xBB, 0xCC]);
        let (back, end): (Column<Simple>, usize) =
            Column::read(&bytes, 0, count, Tz::UTC).unwrap();
        assert_eq!(end, body_end);
        assert_eq!(back.name(), "col");
        assert_eq!(back.sql_type(), t);
        assert_eq!(back.len(), count);
        assert!(back.eq(&column));
        for i in 0..count {
            assert_eq!(back.at(i), column.at(i));
        }
        assert_eq!(written(&back), bytes[..body_end].to_vec());
    }
}

#[test]
fn uvarint_exact_bytes() {
    let cases: Vec<(u64, Vec<u8>)> = vec![
        (0, vec![0x00]),
        (1, vec![0x01]),
        (127, vec![0x7f]),
        (128, vec![0x80, 0x01]),
        (300, vec![0xac, 0x02]),
        (16384, vec![0x80, 0x80, 0x01]),
        (u64::MAX, vec![0xff, 0xff, 0xff, 0xff, 0xff, 0xff, 0xff, 0xff, 0xff, 0x01]),
    ];
    for (n, bytes) in cases {
        let mut out = vec![9u8];
        put_uvarint(&mut out, n);
        assert_eq!(out[1..].to_vec(), bytes);
        let mut input = vec![7u8];
        input.extend_from_slice(&bytes);
        input.push(0x55);
        assert_eq!(get_uvarint(&input, 1), Ok((n, 1 + bytes.len())));
    }
}

#[test]
fn uvarint_faults() {
    assert_eq!(get_uvarint(&[], 0), Err(DriverError::UnexpectedEof));
    assert_eq!(get_uvarint(&[0x80], 0), Err(DriverError::UnexpectedEof));
    assert_eq!(get_uvarint(&[0x80, 0x80], 2), Err(DriverError::UnexpectedEof));
    let ten = [0xff, 0xff, 0xff, 0xff, 0xff, 0xff, 0xff, 0xff, 0xff, 0x02];
    assert_eq!(get_uvarint(&ten, 0), Err(DriverError::Overflow));
    let eleven = [0x80, 0x80, 0x80, 0x80, 0x80, 0x80, 0x80, 0x80, 0x80, 0x80, 0x01];
    assert_eq!(get_uvarint(&eleven, 0), Err(DriverError::Overflow));
    let padded = [0x80, 0x80, 0x80, 0x80, 0x80, 0x80, 0x80, 0x80, 0x80, 0x00];
    assert_eq!(get_uvarint(&padded, 0), Ok((0, 10)));
    assert_eq!(get_uvarint(&[0x81, 0x00], 0), Ok((1, 2)));
}

#[test]
fn little_endian_exact_bytes() {
    let mut out = Vec::new();
    put_le(&mut out, 0x0102, 2);
    put_le(&mut out, 0x0a0b0c0d, 4);
    put_le(&mut out, 1, 8);
    put_le(&mut out, 0x1ff, 1);
    assert_eq!(
        out,
        vec![0x02, 0x01, 0x0d, 0x0c, 0x0b, 0x0a, 1, 0, 0, 0, 0, 0, 0, 0, 0xff]
    );
    assert_eq!(get_le(&out, 0, 2), 0x0102);
    assert_eq!(get_le(&out, 2, 4), 0x0a0b0c0d);
    assert_eq!(get_le(&out, 6, 8), 1);
    assert_eq!(get_le(&out, 14, 1), 0xff);
    assert_eq!(get_le(&out, 3, 0), 0);
    let wide = [0xffu8; 16];
    assert_eq!(get_le(&wide, 0, 16), u128::MAX);
}

#[test]
fn string_exact_bytes_and_faults() {
    let mut out = Vec::new();
    put_string(&mut out, b"abc");
    put_string(&mut out, b"");
    assert_eq!(out, vec![3, b'a', b'b', b'c', 0]);
    assert_eq!(get_string(&out, 0), Ok((b"abc".to_vec(), 4)));
    assert_eq!(get_string(&out, 4), Ok((Vec::new(), 5)));
    assert_eq!(get_string(&out, 5), Err(DriverError::UnexpectedEof));
    assert_eq!(get_string(&[3, b'a', b'b'], 0), Err(DriverError::UnexpectedEof));
    assert_eq!(get_text(&[2, 0xc3, 0xa9], 0), Ok(("\u{e9}".to_string(), 3)));
    assert_eq!(get_text(&[2, 0xc3, 0x28], 0), Err(DriverError::Utf8Error));
    assert_eq!(get_text(&[1, 0xff], 0), Err(DriverError::Utf8Error));
    let long = vec![b'x'; 200];
    let mut out = Vec::new();
    put_string(&mut out, &long);
    assert_eq!(out[0..2].to_vec(), vec![0xc8, 0x01]);
    assert_eq!(out.len(), 202);
    assert_eq!(get_string(&out, 0), Ok((long, 202)));
}

#[test]
fn encoder_collects_bytes() {
    let mut encoder = Encoder::new();
    encoder.uvarint(300);
    encoder.string("h\u{e9}");
    encoder.write_bytes(&[1, 2]);
    assert_eq!(encoder.get_buffer(), vec![0xac, 0x02, 3, b'h', 0xc3, 0xa9, 1, 2]);
}

#[test]
fn column_exact_bytes_numbers() {
    let column = column_of(
        "n",
        SqlType::UInt16,
        vec![Value::UInt16(1), Value::UInt16(0x0203), Value::UInt16(0xffff)],
    );
    let mut expected = vec![1, b'n', 6];
    expected.extend_from_slice(b"UInt16");
    expected.extend_from_slice(&[1, 0, 3, 2, 0xff, 0xff]);
    assert_eq!(written(&column), expected);
}

#[test]
fn column_exact_bytes_signed_and_decimal() {
    let column = column_of("i", SqlType::Int32, vec![Value::Int32(-2), Value::Int32(i32::MIN)]);
    let bytes = written(&column);
    assert_eq!(bytes[bytes.len() - 8..].to_vec(), vec![0xfe, 0xff, 0xff, 0xff, 0, 0, 0, 0x80]);
    let column = column_of("d", SqlType::Decimal(18, 4), vec![decimal(-1, 18, 4)]);
    let bytes = written(&column);
    let name_len = 1 + 1 + 1 + "Decimal(18,4)".len();
    assert_eq!(bytes[2], 13);
    assert_eq!(bytes[3..name_len].to_vec(), b"Decimal(18,4)".to_vec());
    assert_eq!(bytes[name_len..].to_vec(), vec![0xff; 8]);
    let column = column_of("d", SqlType::Decimal(9, 0), vec![decimal(258, 9, 0)]);
    let bytes = written(&column);
    assert_eq!(bytes[bytes.len() - 4..].to_vec(), vec![2, 1, 0, 0]);
    let column = column_of("d", SqlType::Decimal(38, 0), vec![decimal(-2, 38, 0)]);
    let bytes = written(&column);
    let mut tail = vec![0xffu8; 16];
    tail[0] = 0xfe;
    assert_eq!(bytes[bytes.len() - 16..].to_vec(), tail);
}

#[test]
fn column_exact_bytes_strings() {
    let column = column_of("s", SqlType::String, vec![text("ab"), text(""), text("c")]);
    let bytes = written(&column);
    assert_eq!(bytes[bytes.len() - 6..].to_vec(), vec![2, b'a', b'b', 0, 1, b'c']);
    let column = column_of("f", SqlType::FixedString(2), vec![text("ab"), text("c")]);
    let bytes = written(&column);
    assert_eq!(bytes[bytes.len() - 4..].to_vec(), vec![b'a', b'b', b'c', 0]);
}

#[test]
fn column_exact_bytes_nullable() {
    let column = column_of(
        "n",
        nullable(SqlType::UInt8),
        vec![some(Value::UInt8(5)), null(SqlType::UInt8), some(Value::UInt8(7))],
    );
    let bytes = written(&column);
    assert_eq!(bytes[bytes.len() - 6..].to_vec(), vec![0, 1, 0, 5, 0, 7]);
}

#[test]
fn column_exact_bytes_array() {
    let column = column_of(
        "a",
        array(SqlType::UInt8),
        vec![
            row(SqlType::UInt8, vec![Value::UInt8(1), Value::UInt8(2)]),
            row(SqlType::UInt8, vec![]),
            row(SqlType::UInt8, vec![Value::UInt8(3)]),
        ],
    );
    let bytes = written(&column);
    let mut tail = Vec::new();
    tail.extend_from_slice(&[2, 0, 0, 0, 0, 0, 0, 0]);
    tail.extend_from_slice(&[2, 0, 0, 0, 0, 0, 0, 0]);
    tail.extend_from_slice(&[3, 0, 0, 0, 0, 0, 0, 0]);
    tail.extend_from_slice(&[1, 2, 3]);
    assert_eq!(bytes[bytes.len() - tail.len()..].to_vec(), tail);
}

#[test]
fn round_trip_numbers() {
    round_trip(SqlType::UInt8, vec![Value::UInt8(0), Value::UInt8(255), Value::UInt8(7)]);
    round_trip(SqlType::UInt16, vec![Value::UInt16(0), Value::UInt16(65535), Value::UInt16(256)]);
    round_trip(SqlType::UInt32, vec![Value::UInt32(0), Value::UInt32(u32::MAX), Value::UInt32(1)]);
    round_trip(SqlType::UInt64, vec![Value::UInt64(0), Value::UInt64(u64::MAX), Value::UInt64(1)]);
    round_trip(SqlType::Int8, vec![Value::Int8(-128), Value::Int8(127), Value::Int8(-1)]);
    round_trip(SqlType::Int16, vec![Value::Int16(i16::MIN), Value::Int16(i16::MAX), Value::Int16(-1)]);
    round_trip(SqlType::Int32, vec![Value::Int32(i32::MIN), Value::Int32(i32::MAX), Value::Int32(-1)]);
    round_trip(SqlType::Int64, vec![Value::Int64(i64::MIN), Value::Int64(i64::MAX), Value::Int64(-1)]);
    round_trip(
        SqlType::Float32,
        vec![
            Value::Float32(1.5f32.to_bits()),
            Value::Float32(f32::NAN.to_bits()),
            Value::Float32((-0.0f32).to_bits()),
        ],
    );
    round_trip(
        SqlType::Float64,
        vec![Value::Float64(2.25f64.to_bits()), Value::Float64(f64::INFINITY.to_bits())],
    );
    round_trip(SqlType::Date, vec![Value::Date(0), Value::Date(18000), Value::Date(u16::MAX)]);
    round_trip(SqlType::DateTime, vec![Value::DateTime(0), Value::DateTime(1_600_000_000)]);
}

#[test]
fn round_trip_strings_and_decimals() {
    round_trip(SqlType::String, vec![text(""), text("hello"), text("hello"), text("w\u{f6}rld")]);
    round_trip(SqlType::FixedString(1), vec![text("a"), text("b")]);
    round_trip(SqlType::FixedString(16), vec![text("0123456789abcdef"), text("short")]);
    round_trip(
        SqlType::Decimal(9, 2),
        vec![decimal(0, 9, 2), decimal(i32::MAX as i128, 9, 2), decimal(i32::MIN as i128, 9, 2)],
    );
    round_trip(
        SqlType::Decimal(18, 4),
        vec![decimal(-1, 18, 4), decimal(i64::MAX as i128, 18, 4), decimal(i64::MIN as i128, 18, 4)],
    );
    round_trip(
        SqlType::Decimal(38, 38),
        vec![decimal(i128::MAX, 38, 38), decimal(i128::MIN, 38, 38), decimal(5, 38, 38)],
    );
}

#[test]
fn round_trip_nested() {
    round_trip(
        nullable(SqlType::String),
        vec![some(text("a")), null(SqlType::String), some(text(""))],
    );
    round_trip(
        array(SqlType::UInt8),
        vec![
            row(SqlType::UInt8, vec![Value::UInt8(1)]),
            row(SqlType::UInt8, vec![]),
            row(SqlType::UInt8, vec![Value::UInt8(2), Value::UInt8(3)]),
        ],
    );
    let inner = SqlType::Decimal(18, 4);
    let t = nullable(array(inner.clone()));
    round_trip(
        t,
        vec![
            some(row(inner.clone(), vec![decimal(1, 18, 4), decimal(-5, 18, 4)])),
            null(array(inner.clone())),
            some(row(inner.clone(), vec![])),
        ],
    );
    let words = array(SqlType::String);
    round_trip(
        array(words.clone()),
        vec![
            row(words.clone(), vec![row(SqlType::String, vec![text("a"), text("bc")])]),
            row(words.clone(), vec![]),
            row(
                words.clone(),
                vec![row(SqlType::String, vec![]), row(SqlType::String, vec![text("d")])],
            ),
        ],
    );
    round_trip(
        array(nullable(SqlType::FixedString(2))),
        vec![row(
            nullable(SqlType::FixedString(2)),
            vec![some(text("ab")), null(SqlType::FixedString(2))],
        )],
    );
}

#[test]
fn null_payload_on_the_wire_is_ignored() {
    let mut bytes = vec![1, b'n'];
    bytes.push(15);
    bytes.extend_from_slice(b"Nullable(UInt8)");
    bytes.extend_from_slice(&[0, 1, 2, 10, 99, 30]);
    let (column, end): (Column<Simple>, usize) = Column::read(&bytes, 0, 3, Tz::UTC).unwrap();
    assert_eq!(end, bytes.len());
    assert_eq!(column.at(0), some(Value::UInt8(10)));
    assert_eq!(column.at(1), null(SqlType::UInt8));
    assert_eq!(column.at(2), null(SqlType::UInt8));
    let canonical = column_of(
        "n",
        nullable(SqlType::UInt8),
        vec![some(Value::UInt8(10)), null(SqlType::UInt8), null(SqlType::UInt8)],
    );
    assert!(column.eq(&canonical));
    let sent = written(&column);
    assert_eq!(sent[sent.len() - 6..].to_vec(), vec![0, 1, 1, 10, 0, 0]);
}

#[test]
fn read_at_an_offset() {
    let column = column_of("x", SqlType::UInt8, vec![Value::UInt8(1), Value::UInt8(2)]);
    let mut bytes = vec![0xde, 0xad];
    bytes.extend_from_slice(&written(&column));
    let (back, end): (Column<Complex>, usize) = Column::read(&bytes, 2, 2, Tz::UTC).unwrap();
    assert_eq!(end, bytes.len());
    assert!(back.eq(&column));
}

#[test]
fn read_faults() {
    let read = |bytes: &[u8], size: usize| -> Result<(Column<Simple>, usize), Error> {
        Column::read(bytes, 0, size, Tz::UTC)
    };
    assert_eq!(read(&[], 0).err(), Some(Error::Driver(DriverError::UnexpectedEof)));
    assert_eq!(read(&[1, b'n'], 0).err(), Some(Error::Driver(DriverError::UnexpectedEof)));
    assert_eq!(read(&[1, 0xff, 0], 0).err(), Some(Error::Driver(DriverError::Utf8Error)));
    let mut bytes = vec![1, b'n', 5];
    bytes.extend_from_slice(b"UInt9");
    assert_eq!(read(&bytes, 0).err(), Some(Error::UnsupportedType("UInt9".to_string())));
    let mut bytes = vec![1, b'n', 6];
    bytes.extend_from_slice(b"UInt32");
    bytes.extend_from_slice(&[1, 2, 3]);
    assert_eq!(read(&bytes, 1).err(), Some(Error::Driver(DriverError::UnexpectedEof)));
    assert!(read(&bytes, 0).is_ok());
    let mut bytes = vec![1, b'n', 6];
    bytes.extend_from_slice(b"String");
    bytes.extend_from_slice(&[1, b'a', 5, b'b']);
    assert_eq!(read(&bytes, 2).err(), Some(Error::Driver(DriverError::UnexpectedEof)));
    let mut bytes = vec![1, b'n', 6];
    bytes.extend_from_slice(b"String");
    bytes.extend_from_slice(&[0xff, 0xff, 0xff, 0xff, 0xff, 0xff, 0xff, 0xff, 0xff, 0x7f]);
    assert_eq!(read(&bytes, 1).err(), Some(Error::Driver(DriverError::Overflow)));
    let mut bytes = vec![1, b'n', 15];
    bytes.extend_from_slice(b"Nullable(UInt8)");
    bytes.extend_from_slice(&[0, 1]);
    assert_eq!(read(&bytes, 3).err(), Some(Error::Driver(DriverError::UnexpectedEof)));
}

#[test]
fn array_offset_faults() {
    let header = |bytes: &mut Vec<u8>| {
        bytes.extend_from_slice(&[1, b'a', 12]);
        bytes.extend_from_slice(b"Array(UInt8)");
    };
    let read = |bytes: &[u8], size: usize| -> Result<(Column<Simple>, usize), Error> {
        Column::read(bytes, 0, size, Tz::UTC)
    };
    let mut bytes = Vec::new();
    header(&mut bytes);
    bytes.extend_from_slice(&[2, 0, 0, 0, 0, 0, 0, 0, 1, 0, 0, 0, 0, 0, 0, 0, 7, 8]);
    assert_eq!(read(&bytes, 2).err(), Some(Error::Driver(DriverError::BadOffsets)));
    let mut bytes = Vec::new();
    header(&mut bytes);
    bytes.extend_from_slice(&[1, 0, 0, 0, 0, 0, 0, 0, 3, 0, 0, 0, 0, 0, 0, 0, 7, 8]);
    assert_eq!(read(&bytes, 2).err(), Some(Error::Driver(DriverError::UnexpectedEof)));
    let mut bytes = Vec::new();
    header(&mut bytes);
    bytes.extend_from_slice(&[0xff; 8]);
    assert_eq!(read(&bytes, 1).err(), Some(Error::Driver(DriverError::UnexpectedEof)));
    let mut bytes = Vec::new();
    header(&mut bytes);
    bytes.extend_from_slice(&[0xff; 8]);
    bytes.extend_from_slice(&[0; 8]);
    assert_eq!(read(&bytes, 2).err(), Some(Error::Driver(DriverError::BadOffsets)));
    let mut bytes = Vec::new();
    header(&mut bytes);
    bytes.extend_from_slice(&[1, 0, 0, 0, 0]);
    assert_eq!(read(&bytes, 1).err(), Some(Error::Driver(DriverError::UnexpectedEof)));
    let mut bytes = Vec::new();
    header(&mut bytes);
    bytes.extend_from_slice(&[1, 0, 0, 0, 0, 0, 0, 0, 2, 0, 0, 0, 0, 0, 0, 0, 7, 8]);
    let (column, _) = read(&bytes, 2).unwrap();
    assert_eq!(column.at(0), row(SqlType::UInt8, vec![Value::UInt8(7)]));
    assert_eq!(column.at(1), row(SqlType::UInt8, vec![Value::UInt8(8)]));
}

#[test]
fn concat_saves_like_the_whole() {
    let part_a = column_of("p", SqlType::UInt16, (0..3).map(|i| Value::UInt16(100 + i)).collect());
    let part_b = column_of("p", SqlType::UInt16, (0..5).map(|i| Value::UInt16(200 + i)).collect());
    let part_c = column_of("p", SqlType::UInt16, (0..2).map(|i| Value::UInt16(300 + i)).collect());
    let joined = Column::concat(&[&part_a, &part_b, &part_c]);
    let mut whole = column_of("p", SqlType::UInt16, vec![]);
    for i in 0..10 {
        whole.push(joined.at(i)).unwrap();
    }
    let data: Arc<ColumnData> = Column::column_from::<ArcColumnWrapper>(joined.clone());
    let flat: Arc<ColumnData> = Column::column_from::<ArcColumnWrapper>(whole.clone());
    let mut all = Vec::new();
    flat.save(&mut all, 0, 10);
    assert_eq!(all.len(), 20);
    let mut part = Vec::new();
    data.save(&mut part, 2, 6);
    assert_eq!(part, all[4..16].to_vec());
    let mut same = Vec::new();
    flat.save(&mut same, 2, 6);
    assert_eq!(part, same);
    for start in 0..10 {
        for count in 0..(10 - start) {
            let mut a = Vec::new();
            let mut b = Vec::new();
            data.save(&mut a, start, count);
            flat.save(&mut b, start, count);
            assert_eq!(a, b);
            assert_eq!(a, all[2 * start..2 * (start + count)].to_vec());
        }
    }
}

#[test]
fn concat_of_nested_columns_saves_like_the_whole() {
    let t = nullable(SqlType::String);
    let part_a = column_of("p", t.clone(), vec![some(text("a")), null(SqlType::String)]);
    let part_b = column_of("p", t.clone(), vec![some(text("bcd"))]);
    let joined = Column::concat(&[&part_a, &part_b]);
    let whole = column_of(
        "p",
        t.clone(),
        vec![some(text("a")), null(SqlType::String), some(text("bcd"))],
    );
    let data: Arc<ColumnData> = Column::column_from::<ArcColumnWrapper>(joined);
    let flat: Arc<ColumnData> = Column::column_from::<ArcColumnWrapper>(whole);
    let mut a = Vec::new();
    let mut b = Vec::new();
    data.save(&mut a, 1, 2);
    flat.save(&mut b, 1, 2);
    assert_eq!(a, b);
    assert_eq!(a, vec![1, 0, 0, 3, b'b', b'c', b'd']);
}

#[test]
fn slice_and_cast_save_their_rows() {
    let column = column_of("s", SqlType::String, vec![text("a"), text("bcd"), text("ef")]);
    let window = column.slice(1..3);
    let data: Arc<ColumnData> = Column::column_from::<ArcColumnWrapper>(window);
    let mut out = Vec::new();
    data.save(&mut out, 0, 2);
    assert_eq!(out, vec![3, b'b', b'c', b'd', 2, b'e', b'f']);
    let cast = column.cast_to(SqlType::FixedString(2)).unwrap();
    let data: Arc<ColumnData> = Column::column_from::<ArcColumnWrapper>(cast);
    let mut out = Vec::new();
    data.save(&mut out, 0, 3);
    assert_eq!(out, vec![b'a', 0, b'b', b'c', b'e', b'f']);
}

#[test]
fn wrappers_hold_the_same_rows() {
    let column = column_of("c", SqlType::UInt8, vec![Value::UInt8(4), Value::UInt8(5)]);
    let shared: Arc<ColumnData> = Column::column_from::<ArcColumnWrapper>(column.clone());
    assert_eq!(shared.len(), 2);
    assert_eq!(shared.at(1), Value::UInt8(5));
    let boxed: Box<ColumnData> = Column::column_from::<BoxColumnWrapper>(column.clone());
    assert_eq!(boxed.len(), 2);
    assert_eq!(boxed.at(0), Value::UInt8(4));
    assert_eq!(boxed.sql_type(), SqlType::UInt8);
}

#[test]
fn load_data_by_name() {
    let bytes = [1u8, 0, 2, 0];
    let (data, end) =
        ColumnData::load_data::<BoxColumnWrapper>(&bytes, 0, "UInt16", 2, Tz::UTC).unwrap();
    assert_eq!(end, 4);
    assert_eq!(data.at(0), Value::UInt16(1));
    assert_eq!(data.at(1), Value::UInt16(2));
    let r = ColumnData::load_data::<ArcColumnWrapper>(&bytes, 0, "Nullable()", 2, Tz::UTC);
    assert_eq!(r.err(), Some(Error::UnsupportedType("Nullable()".to_string())));
}

#[test]
fn round_trip_without_width_and_with_any_scale() {
    round_trip(SqlType::FixedString(0), vec![text(""), text(""), text("")]);
    round_trip(
        array(SqlType::FixedString(0)),
        vec![
            row(SqlType::FixedString(0), vec![text(""), text("")]),
            row(SqlType::FixedString(0), vec![]),
            row(SqlType::FixedString(0), vec![text("")]),
        ],
    );
    round_trip(
        nullable(SqlType::FixedString(0)),
        vec![some(text("")), null(SqlType::FixedString(0))],
    );
    round_trip(SqlType::Decimal(9, 200), vec![decimal(1, 9, 200), decimal(-7, 9, 200)]);
    round_trip(SqlType::Decimal(19, 20), vec![decimal(i128::MAX, 19, 20)]);
}

#[test]
fn rows_without_width_take_no_bytes() {
    let mut bytes = vec![1, b'f', 14];
    bytes.extend_from_slice(b"FixedString(0)");
    let (column, end): (Column<Simple>, usize) =
        Column::read(&bytes, 0, usize::MAX, Tz::UTC).unwrap();
    assert_eq!(end, bytes.len());
    assert_eq!(column.len(), usize::MAX);
    assert_eq!(column.at(usize::MAX - 1), text(""));
    assert_eq!(column.at(0), text(""));
    let mut full = column.clone();
    assert_eq!(full.push(text("")), Err(Error::Driver(DriverError::Overflow)));
    assert_eq!(full.len(), usize::MAX);

    let mut bytes = vec![1, b'a', 21];
    bytes.extend_from_slice(b"Array(FixedString(0))");
    bytes.extend_from_slice(&[5, 0, 0, 0, 0, 0, 0, 0]);
    bytes.extend_from_slice(&[0xff, 0xff, 0xff, 0xff, 0xff, 0xff, 0xff, 0x7f]);
    let (column, end): (Column<Simple>, usize) = Column::read(&bytes, 0, 2, Tz::UTC).unwrap();
    assert_eq!(end, bytes.len());
    assert_eq!(column.len(), 2);
    assert_eq!(column.at(0), row(SqlType::FixedString(0), vec![text(""); 5]));
    let mut one_more = column.clone();
    assert_eq!(
        one_more.push(row(SqlType::FixedString(0), vec![text("x"), text("y")])),
        Ok(())
    );
    assert_eq!(one_more.at(2), row(SqlType::FixedString(0), vec![text(""), text("")]));
}

#[test]
fn push_beyond_what_the_machine_counts() {
    let full = ColumnData::FixedString { buffer: vec![], str_len: 0, rows: usize::MAX - 2 };
    assert!(full.is_well_formed());
    let t = array(SqlType::FixedString(0));
    let data = ColumnData::Array { offsets: vec![usize::MAX - 2], inner: Box::new(full) };
    assert!(data.is_well_formed());
    assert_eq!(data.leaf_len(), usize::MAX - 2);
    let mut column: Column<Simple> = new_column("a", Arc::new(data));
    let three = row(SqlType::FixedString(0), vec![text(""); 3]);
    let two = row(SqlType::FixedString(0), vec![text(""); 2]);
    assert_eq!(column.push(three), Err(Error::Driver(DriverError::Overflow)));
    assert_eq!(column.len(), 1);
    assert_eq!(column.push(two.clone()), Ok(()));
    assert_eq!(column.len(), 2);
    assert_eq!(column.at(1), two);
    assert_eq!(column.sql_type(), t);
    assert_eq!(
        column.push(row(SqlType::FixedString(0), vec![text("")])),
        Err(Error::Driver(DriverError::Overflow))
    );
    assert_eq!(column.push(row(SqlType::FixedString(0), vec![])), Ok(()));
    assert_eq!(column.len(), 3);
}
