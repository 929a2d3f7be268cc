//! Typed access to the rows of a simple column.

use vstd::prelude::*;
use crate::column::column_data::ColumnData;
use crate::column::{Column, Simple};
use crate::errors::{Error, FromSqlError};
use crate::types::SqlType;
use crate::value::ValueView;

verus! {

/// A type of number whose rows a column can lend out as one slice.
pub trait SimpleIterable: Sized {
    /// The type of the columns whose rows are numbers of this type.
    spec fn column_type() -> SqlType;

    /// A number of this type as a row value.
    spec fn value(self) -> ValueView;

    /// The numbers of the storage, where it is a vector of this type.
    spec fn vector_of(data: &ColumnData) -> Option<Seq<Self>>;

    /// A vector of this type has the column type of this type, and its rows
    /// are its numbers.
    proof fn lemma_vector_of(data: &ColumnData)
        ensures
            Self::vector_of(data) matches Some(v) ==> data.spec_sql_type() == Self::column_type()
                && data.rows() == v.map_values(|k: Self| k.value()),
    ;

    fn type_of_rows() -> (r: SqlType)
        ensures
            r == Self::column_type(),
    ;

    /// The numbers of the storage as one slice, where it is a vector of this type.
    fn slice_of<'a>(data: &'a ColumnData) -> (r: Option<&'a [Self]>)
        ensures
            match (r, Self::vector_of(data)) {
                (Some(s), Some(v)) => s@ == v,
                (None, None) => true,
                _ => false,
            },
    ;
}

impl SimpleIterable for u8 {
    open spec fn column_type() -> SqlType {
        SqlType::UInt8
    }

    open spec fn value(self) -> ValueView {
        ValueView::UInt8(self)
    }

    open spec fn vector_of(data: &ColumnData) -> Option<Seq<Self>> {
        match data {
            ColumnData::UInt8(v) => Some(v@),
            _ => None,
        }
    }

    proof fn lemma_vector_of(data: &ColumnData) {
        match data {
            ColumnData::UInt8(v) => {
                assert(data.rows() =~= v@.map_values(|k: u8| k.value()));
            },
            _ => {},
        }
    }

    fn type_of_rows() -> (r: SqlType) {
        SqlType::UInt8
    }

    fn slice_of<'a>(data: &'a ColumnData) -> (r: Option<&'a [Self]>) {
        match data {
            ColumnData::UInt8(v) => Some(v.as_slice()),
            _ => None,
        }
    }
}

impl SimpleIterable for u16 {
    open spec fn column_type() -> SqlType {
        SqlType::UInt16
    }

    open spec fn value(self) -> ValueView {
        ValueView::UInt16(self)
    }

    open spec fn vector_of(data: &ColumnData) -> Option<Seq<Self>> {
        match data {
            ColumnData::UInt16(v) => Some(v@),
            _ => None,
        }
    }

    proof fn lemma_vector_of(data: &ColumnData) {
        match data {
            ColumnData::UInt16(v) => {
                assert(data.rows() =~= v@.map_values(|k: u16| k.value()));
            },
            _ => {},
        }
    }

    fn type_of_rows() -> (r: SqlType) {
        SqlType::UInt16
    }

    fn slice_of<'a>(data: &'a ColumnData) -> (r: Option<&'a [Self]>) {
        match data {
            ColumnData::UInt16(v) => Some(v.as_slice()),
            _ => None,
        }
    }
}

impl SimpleIterable for u32 {
    open spec fn column_type() -> SqlType {
        SqlType::UInt32
    }

    open spec fn value(self) -> ValueView {
        ValueView::UInt32(self)
    }

    open spec fn vector_of(data: &ColumnData) -> Option<Seq<Self>> {
        match data {
            ColumnData::UInt32(v) => Some(v@),
            _ => None,
        }
    }

    proof fn lemma_vector_of(data: &ColumnData) {
        match data {
            ColumnData::UInt32(v) => {
                assert(data.rows() =~= v@.map_values(|k: u32| k.value()));
            },
            _ => {},
        }
    }

    fn type_of_rows() -> (r: SqlType) {
        SqlType::UInt32
    }

    fn slice_of<'a>(data: &'a ColumnData) -> (r: Option<&'a [Self]>) {
        match data {
            ColumnData::UInt32(v) => Some(v.as_slice()),
            _ => None,
        }
    }
}

impl SimpleIterable for u64 {
    open spec fn column_type() -> SqlType {
        SqlType::UInt64
    }

    open spec fn value(self) -> ValueView {
        ValueView::UInt64(self)
    }

    open spec fn vector_of(data: &ColumnData) -> Option<Seq<Self>> {
        match data {
            ColumnData::UInt64(v) => Some(v@),
            _ => None,
        }
    }

    proof fn lemma_vector_of(data: &ColumnData) {
        match data {
            ColumnData::UInt64(v) => {
                assert(data.rows() =~= v@.map_values(|k: u64| k.value()));
            },
            _ => {},
        }
    }

    fn type_of_rows() -> (r: SqlType) {
        SqlType::UInt64
    }

    fn slice_of<'a>(data: &'a ColumnData) -> (r: Option<&'a [Self]>) {
        match data {
            ColumnData::UInt64(v) => Some(v.as_slice()),
            _ => None,
        }
    }
}

impl SimpleIterable for i8 {
    open spec fn column_type() -> SqlType {
        SqlType::Int8
    }

    open spec fn value(self) -> ValueView {
        ValueView::Int8(self)
    }

    open spec fn vector_of(data: &ColumnData) -> Option<Seq<Self>> {
        match data {
            ColumnData::Int8(v) => Some(v@),
            _ => None,
        }
    }

    proof fn lemma_vector_of(data: &ColumnData) {
        match data {
            ColumnData::Int8(v) => {
                assert(data.rows() =~= v@.map_values(|k: i8| k.value()));
            },
            _ => {},
        }
    }

    fn type_of_rows() -> (r: SqlType) {
        SqlType::Int8
    }

    fn slice_of<'a>(data: &'a ColumnData) -> (r: Option<&'a [Self]>) {
        match data {
            ColumnData::Int8(v) => Some(v.as_slice()),
            _ => None,
        }
    }
}

impl SimpleIterable for i16 {
    open spec fn column_type() -> SqlType {
        SqlType::Int16
    }

    open spec fn value(self) -> ValueView {
        ValueView::Int16(self)
    }

    open spec fn vector_of(data: &ColumnData) -> Option<Seq<Self>> {
        match data {
            ColumnData::Int16(v) => Some(v@),
            _ => None,
        }
    }

    proof fn lemma_vector_of(data: &ColumnData) {
        match data {
            ColumnData::Int16(v) => {
                assert(data.rows() =~= v@.map_values(|k: i16| k.value()));
            },
            _ => {},
        }
    }

    fn type_of_rows() -> (r: SqlType) {
        SqlType::Int16
    }

    fn slice_of<'a>(data: &'a ColumnData) -> (r: Option<&'a [Self]>) {
        match data {
            ColumnData::Int16(v) => Some(v.as_slice()),
            _ => None,
        }
    }
}

impl SimpleIterable for i32 {
    open spec fn column_type() -> SqlType {
        SqlType::Int32
    }

    open spec fn value(self) -> ValueView {
        ValueView::Int32(self)
    }

    open spec fn vector_of(data: &ColumnData) -> Option<Seq<Self>> {
        match data {
            ColumnData::Int32(v) => Some(v@),
            _ => None,
        }
    }

    proof fn lemma_vector_of(data: &ColumnData) {
        match data {
            ColumnData::Int32(v) => {
                assert(data.rows() =~= v@.map_values(|k: i32| k.value()));
            },
            _ => {},
        }
    }

    fn type_of_rows() -> (r: SqlType) {
        SqlType::Int32
    }

    fn slice_of<'a>(data: &'a ColumnData) -> (r: Option<&'a [Self]>) {
        match data {
            ColumnData::Int32(v) => Some(v.as_slice()),
            _ => None,
        }
    }
}

impl SimpleIterable for i64 {
    open spec fn column_type() -> SqlType {
        SqlType::Int64
    }

    open spec fn value(self) -> ValueView {
        ValueView::Int64(self)
    }

    open spec fn vector_of(data: &ColumnData) -> Option<Seq<Self>> {
        match data {
            ColumnData::Int64(v) => Some(v@),
            _ => None,
        }
    }

    proof fn lemma_vector_of(data: &ColumnData) {
        match data {
            ColumnData::Int64(v) => {
                assert(data.rows() =~= v@.map_values(|k: i64| k.value()));
            },
            _ => {},
        }
    }

    fn type_of_rows() -> (r: SqlType) {
        SqlType::Int64
    }

    fn slice_of<'a>(data: &'a ColumnData) -> (r: Option<&'a [Self]>) {
        match data {
            ColumnData::Int64(v) => Some(v.as_slice()),
            _ => None,
        }
    }
}

impl Column<Simple> {
    /// The rows as one slice of numbers of type `T`. The column must be declared
    /// with the column type of `T`, else the error names both types; and its
    /// storage must be the vector itself, not a view of one.
    pub fn iter<'a, T: SimpleIterable>(&'a self) -> (r: Result<&'a [T], Error>)
        ensures
            match r {
                Ok(slice) => {
                    &&& self.spec_sql_type() == T::column_type()
                    &&& T::vector_of(&self.storage()) == Some(slice@)
                    &&& self.rows() == slice@.map_values(|k: T| k.value())
                },
                Err(e) => {
                    &&& T::vector_of(&self.storage()) is None
                    &&& if self.spec_sql_type() == T::column_type() {
                        e == Error::FromSql(FromSqlError::UnsupportedOperation)
                    } else {
                        &&& e matches Error::FromSql(FromSqlError::InvalidType { src, dst })
                        &&& src@ == self.spec_sql_type().name()
                        &&& dst@ == T::column_type().name()
                    }
                },
            },
    {
        proof {
            T::lemma_vector_of(&self.storage());
        }
        match T::slice_of(&*self.data) {
            Some(slice) => Ok(slice),
            None => {
                let declared = self.sql_type();
                let asked = T::type_of_rows();
                if declared == asked {
                    Err(Error::FromSql(FromSqlError::UnsupportedOperation))
                } else {
                    Err(
                        Error::FromSql(
                            FromSqlError::InvalidType {
                                src: declared.to_string(),
                                dst: asked.to_string(),
                            },
                        ),
                    )
                }
            },
        }
    }
}

} // verus!
