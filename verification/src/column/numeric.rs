//! Dense vectors of fixed-width numbers.

use vstd::prelude::*;
use crate::binary::{
    get_le, le_bytes, le_value, lemma_le_bytes_of_value,
    lemma_pow256_values, pow256, put_le,
};
use crate::errors::{DriverError, Error};

verus! {

/// A number of fixed width with a little-endian layout.
pub trait Primitive: Copy + Sized {
    /// Bytes that one number takes.
    spec fn width() -> nat;

    /// The number read as an unsigned integer of its width (two's complement).
    spec fn raw(self) -> nat;

    /// The number that an unsigned integer of the width stands for.
    spec fn of_raw(raw: nat) -> Self;

    /// The unsigned reading fits the width and determines the number.
    proof fn lemma_raw(x: Self)
        ensures
            1 <= Self::width() <= 16,
            x.raw() < pow256(Self::width()),
            Self::of_raw(x.raw()) == x,
    ;

    fn size() -> (r: usize)
        ensures
            r == Self::width(),
    ;

    fn to_raw(self) -> (r: u128)
        ensures
            r == self.raw(),
    ;

    fn from_raw(raw: u128) -> (r: Self)
        requires
            raw < pow256(Self::width()),
        ensures
            r == Self::of_raw(raw as nat),
    ;
}

impl Primitive for u8 {
    open spec fn width() -> nat {
        1
    }

    open spec fn raw(self) -> nat {
        self as nat
    }

    open spec fn of_raw(raw: nat) -> Self {
        raw as u8
    }

    proof fn lemma_raw(x: Self) {
        lemma_pow256_values();
    }

    fn size() -> (r: usize) {
        1
    }

    fn to_raw(self) -> (r: u128) {
        self as u128
    }

    fn from_raw(raw: u128) -> (r: Self) {
        proof {
            lemma_pow256_values();
        }
        raw as u8
    }
}

impl Primitive for u16 {
    open spec fn width() -> nat {
        2
    }

    open spec fn raw(self) -> nat {
        self as nat
    }

    open spec fn of_raw(raw: nat) -> Self {
        raw as u16
    }

    proof fn lemma_raw(x: Self) {
        lemma_pow256_values();
    }

    fn size() -> (r: usize) {
        2
    }

    fn to_raw(self) -> (r: u128) {
        self as u128
    }

    fn from_raw(raw: u128) -> (r: Self) {
        proof {
            lemma_pow256_values();
        }
        raw as u16
    }
}

impl Primitive for u32 {
    open spec fn width() -> nat {
        4
    }

    open spec fn raw(self) -> nat {
        self as nat
    }

    open spec fn of_raw(raw: nat) -> Self {
        raw as u32
    }

    proof fn lemma_raw(x: Self) {
        lemma_pow256_values();
    }

    fn size() -> (r: usize) {
        4
    }

    fn to_raw(self) -> (r: u128) {
        self as u128
    }

    fn from_raw(raw: u128) -> (r: Self) {
        proof {
            lemma_pow256_values();
        }
        raw as u32
    }
}

impl Primitive for u64 {
    open spec fn width() -> nat {
        8
    }

    open spec fn raw(self) -> nat {
        self as nat
    }

    open spec fn of_raw(raw: nat) -> Self {
        raw as u64
    }

    proof fn lemma_raw(x: Self) {
        lemma_pow256_values();
    }

    fn size() -> (r: usize) {
        8
    }

    fn to_raw(self) -> (r: u128) {
        self as u128
    }

    fn from_raw(raw: u128) -> (r: Self) {
        proof {
            lemma_pow256_values();
        }
        raw as u64
    }
}

impl Primitive for i8 {
    open spec fn width() -> nat {
        1
    }

    open spec fn raw(self) -> nat {
        if self >= 0 {
            self as nat
        } else {
            (self + 0x100) as nat
        }
    }

    open spec fn of_raw(raw: nat) -> Self {
        if raw < 0x80 {
            raw as i8
        } else {
            (raw - 0x100) as i8
        }
    }

    proof fn lemma_raw(x: Self) {
        lemma_pow256_values();
    }

    fn size() -> (r: usize) {
        1
    }

    fn to_raw(self) -> (r: u128) {
        if self >= 0 {
            self as u128
        } else {
            ((self + 0x7f + 1) as u128) + 0x80
        }
    }

    fn from_raw(raw: u128) -> (r: Self) {
        proof {
            lemma_pow256_values();
        }
        if raw < 0x80 {
            raw as i8
        } else {
            ((raw - 0x80) as i8) - 0x7f - 1
        }
    }
}

impl Primitive for i16 {
    open spec fn width() -> nat {
        2
    }

    open spec fn raw(self) -> nat {
        if self >= 0 {
            self as nat
        } else {
            (self + 0x1_0000) as nat
        }
    }

    open spec fn of_raw(raw: nat) -> Self {
        if raw < 0x8000 {
            raw as i16
        } else {
            (raw - 0x1_0000) as i16
        }
    }

    proof fn lemma_raw(x: Self) {
        lemma_pow256_values();
    }

    fn size() -> (r: usize) {
        2
    }

    fn to_raw(self) -> (r: u128) {
        if self >= 0 {
            self as u128
        } else {
            ((self + 0x7fff + 1) as u128) + 0x8000
        }
    }

    fn from_raw(raw: u128) -> (r: Self) {
        proof {
            lemma_pow256_values();
        }
        if raw < 0x8000 {
            raw as i16
        } else {
            ((raw - 0x8000) as i16) - 0x7fff - 1
        }
    }
}

impl Primitive for i32 {
    open spec fn width() -> nat {
        4
    }

    open spec fn raw(self) -> nat {
        if self >= 0 {
            self as nat
        } else {
            (self + 0x1_0000_0000) as nat
        }
    }

    open spec fn of_raw(raw: nat) -> Self {
        if raw < 0x8000_0000 {
            raw as i32
        } else {
            (raw - 0x1_0000_0000) as i32
        }
    }

    proof fn lemma_raw(x: Self) {
        lemma_pow256_values();
    }

    fn size() -> (r: usize) {
        4
    }

    fn to_raw(self) -> (r: u128) {
        if self >= 0 {
            self as u128
        } else {
            ((self + 0x7fff_ffff + 1) as u128) + 0x8000_0000
        }
    }

    fn from_raw(raw: u128) -> (r: Self) {
        proof {
            lemma_pow256_values();
        }
        if raw < 0x8000_0000 {
            raw as i32
        } else {
            ((raw - 0x8000_0000) as i32) - 0x7fff_ffff - 1
        }
    }
}

impl Primitive for i64 {
    open spec fn width() -> nat {
        8
    }

    open spec fn raw(self) -> nat {
        if self >= 0 {
            self as nat
        } else {
            (self + 0x1_0000_0000_0000_0000) as nat
        }
    }

    open spec fn of_raw(raw: nat) -> Self {
        if raw < 0x8000_0000_0000_0000 {
            raw as i64
        } else {
            (raw - 0x1_0000_0000_0000_0000) as i64
        }
    }

    proof fn lemma_raw(x: Self) {
        lemma_pow256_values();
    }

    fn size() -> (r: usize) {
        8
    }

    fn to_raw(self) -> (r: u128) {
        if self >= 0 {
            self as u128
        } else {
            ((self + 0x7fff_ffff_ffff_ffff + 1) as u128) + 0x8000_0000_0000_0000
        }
    }

    fn from_raw(raw: u128) -> (r: Self) {
        proof {
            lemma_pow256_values();
        }
        if raw < 0x8000_0000_0000_0000 {
            raw as i64
        } else {
            ((raw - 0x8000_0000_0000_0000) as i64) - 0x7fff_ffff_ffff_ffff - 1
        }
    }
}

impl Primitive for i128 {
    open spec fn width() -> nat {
        16
    }

    open spec fn raw(self) -> nat {
        if self >= 0 {
            self as nat
        } else {
            (self + 0x1_0000_0000_0000_0000_0000_0000_0000_0000) as nat
        }
    }

    open spec fn of_raw(raw: nat) -> Self {
        if raw < 0x8000_0000_0000_0000_0000_0000_0000_0000 {
            raw as i128
        } else {
            (raw - 0x1_0000_0000_0000_0000_0000_0000_0000_0000) as i128
        }
    }

    proof fn lemma_raw(x: Self) {
        lemma_pow256_values();
    }

    fn size() -> (r: usize) {
        16
    }

    fn to_raw(self) -> (r: u128) {
        if self >= 0 {
            self as u128
        } else {
            ((self + 0x7fff_ffff_ffff_ffff_ffff_ffff_ffff_ffff + 1) as u128) + 0x8000_0000_0000_0000_0000_0000_0000_0000
        }
    }

    fn from_raw(raw: u128) -> (r: Self) {
        proof {
            lemma_pow256_values();
        }
        if raw < 0x8000_0000_0000_0000_0000_0000_0000_0000 {
            raw as i128
        } else {
            ((raw - 0x8000_0000_0000_0000_0000_0000_0000_0000) as i128) - 0x7fff_ffff_ffff_ffff_ffff_ffff_ffff_ffff - 1
        }
    }
}

/// The wire bytes of a run of numbers: each in its width, least significant byte first.
pub open spec fn flat<K: Primitive>(s: Seq<K>) -> Seq<u8>
    decreases s.len(),
{
    if s.len() == 0 {
        Seq::empty()
    } else {
        flat(s.drop_last()) + le_bytes(s.last().raw(), K::width())
    }
}

/// The `n` numbers that the first `n` groups of bytes spell.
pub open spec fn unflat<K: Primitive>(bytes: Seq<u8>, n: nat) -> Seq<K> {
    Seq::new(
        n,
        |i: int| K::of_raw(le_value(bytes.subrange(i * K::width(), (i + 1) * K::width()))),
    )
}

/// A dense vector of numbers of one type.
pub struct VectorColumnData<K: Primitive> {
    pub data: Vec<K>,
}

impl<K: Primitive> View for VectorColumnData<K> {
    type V = Seq<K>;

    open spec fn view(&self) -> Seq<K> {
        self.data@
    }
}

impl<K: Primitive> VectorColumnData<K> {
    /// An empty vector.
    pub fn new() -> (r: Self)
        ensures
            r@ == Seq::<K>::empty(),
    {
        VectorColumnData { data: Vec::new() }
    }

    /// Number of rows.
    pub fn len(&self) -> (r: usize)
        ensures
            r == self@.len(),
    {
        self.data.len()
    }

    /// The number in row `index`.
    pub fn at(&self, index: usize) -> (r: K)
        requires
            index < self@.len(),
        ensures
            r == self@[index as int],
    {
        self.data[index]
    }

    /// Appends one row.
    pub fn push(&mut self, value: K)
        ensures
            final(self)@ == old(self)@.push(value),
    {
        self.data.push(value);
    }

    /// The rows as one contiguous slice.
    pub fn as_slice(&self) -> (r: &[K])
        ensures
            r@ == self@,
    {
        self.data.as_slice()
    }

    /// An independent copy.
    pub fn clone_instance(&self) -> (r: Self)
        ensures
            r@ == self@,
    {
        let mut data: Vec<K> = Vec::with_capacity(self.data.len());
        let mut i: usize = 0;
        while i < self.data.len()
            invariant
                i <= self.data.len(),
                data@ == self.data@.subrange(0, i as int),
            decreases self.data.len() - i,
        {
            data.push(self.data[i]);
            assert(data@ =~= self.data@.subrange(0, i + 1));
            i += 1;
        }
        assert(self.data@.subrange(0, self.data.len() as int) =~= self.data@);
        VectorColumnData { data }
    }

    /// Appends the wire bytes of the rows `[start, start + count)`.
    pub fn save(&self, out: &mut Vec<u8>, start: usize, count: usize)
        requires
            start + count <= self@.len(),
        ensures
            final(out)@ == old(out)@ + flat(self@.subrange(start as int, start + count)),
    {
        let w = K::size();
        let mut i: usize = 0;
        assert(old(out)@ + flat(self@.subrange(start as int, start as int)) =~= old(out)@);
        while i < count
            invariant
                i <= count,
                start + count <= self@.len() == self.data.len(),
                w == K::width(),
                out@ == old(out)@ + flat(self@.subrange(start as int, start + i)),
            decreases count - i,
        {
            let k = self.data[start + i];
            put_le(out, k.to_raw(), w);
            proof {
                let a = self@.subrange(start as int, start + i);
                let b = self@.subrange(start as int, start + i + 1);
                assert(b.drop_last() =~= a);
                assert(b.last() == k);
                assert(out@ =~= old(out)@ + flat(b));
            }
            i += 1;
        }
    }

    /// Reads `size` rows from `bytes` at `pos`; gives the vector and the position
    /// behind it, or `UnexpectedEof` where fewer bytes are left than the rows take.
    pub fn load(bytes: &[u8], pos: usize, size: usize) -> (r: Result<(Self, usize), Error>)
        requires
            pos <= bytes@.len(),
        ensures
            match r {
                Ok((column, end)) => {
                    &&& end == pos + size * K::width()
                    &&& end <= bytes@.len()
                    &&& column@ == unflat::<K>(bytes@.skip(pos as int), size as nat)
                },
                Err(e) => e == Error::Driver(DriverError::UnexpectedEof) && pos + size
                    * K::width() > bytes@.len(),
            },
    {
        let w = K::size();
        let total = bytes.len();
        let left = total - pos;
        proof {
            K::lemma_raw(K::of_raw(0));
        }
        if size > left / w {
            assert(size * K::width() > left) by (nonlinear_arith)
                requires
                    size > (left as int) / (w as int),
                    w == K::width(),
                    w >= 1,
            ;
            return Err(Error::Driver(DriverError::UnexpectedEof));
        }
        assert(size * w <= left) by (nonlinear_arith)
            requires
                size <= (left as int) / (w as int),
                w >= 1,
        ;
        let ghost src = bytes@.skip(pos as int);
        let mut data: Vec<K> = Vec::with_capacity(size);
        let mut i: usize = 0;
        while i < size
            invariant
                i <= size,
                w == K::width(),
                1 <= w <= 16,
                size * w <= left,
                left == total - pos,
                total == bytes@.len(),
                src == bytes@.skip(pos as int),
                data@ == unflat::<K>(src, i as nat),
            decreases size - i,
        {
            assert((i + 1) * w <= size * w) by (nonlinear_arith)
                requires
                    i + 1 <= size,
                    w >= 0,
            ;
            assert((i + 1) * w == i * w + w) by (nonlinear_arith);
            let at = pos + i * w;
            let raw = get_le(bytes, at, w);
            proof {
                let group = bytes@.subrange(at as int, at + w);
                assert(group =~= src.subrange(i * K::width(), (i + 1) * K::width()));
                lemma_le_bytes_of_value(group);
            }
            let k = K::from_raw(raw);
            data.push(k);
            assert(data@ =~= unflat::<K>(src, (i + 1) as nat));
            i += 1;
        }
        Ok((VectorColumnData { data }, pos + size * w))
    }
}

} // verus!
