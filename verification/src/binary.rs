//! The primitives of the wire format: little-endian integers, variable-length
//! integers and length-prefixed strings.

use vstd::prelude::*;
use vstd::string::*;
use crate::errors::DriverError;

verus! {

/// 256 to the power `w`.
pub open spec fn pow256(w: nat) -> nat
    decreases w,
{
    if w == 0 {
        1
    } else {
        256 * pow256((w - 1) as nat)
    }
}

/// The `w` low bytes of `x`, least significant first.
pub open spec fn le_bytes(x: nat, w: nat) -> Seq<u8>
    decreases w,
{
    if w == 0 {
        Seq::empty()
    } else {
        seq![(x % 256) as u8] + le_bytes(x / 256, (w - 1) as nat)
    }
}

/// The number whose little-endian bytes are `s`.
pub open spec fn le_value(s: Seq<u8>) -> nat
    decreases s.len(),
{
    if s.len() == 0 {
        0
    } else {
        s[0] as nat + 256 * le_value(s.skip(1))
    }
}

/// The powers of 256 that the integer widths use.
pub proof fn lemma_pow256_values()
    ensures
        pow256(0) == 1,
        pow256(1) == 0x100,
        pow256(2) == 0x1_0000,
        pow256(4) == 0x1_0000_0000,
        pow256(8) == 0x1_0000_0000_0000_0000,
        pow256(16) == 0x1_0000_0000_0000_0000_0000_0000_0000_0000,
{
    reveal_with_fuel(pow256, 17);
}

pub proof fn lemma_le_bytes_len(x: nat, w: nat)
    ensures
        le_bytes(x, w).len() == w,
    decreases w,
{
    if w > 0 {
        lemma_le_bytes_len(x / 256, (w - 1) as nat);
    }
}

/// Decoding undoes encoding of a number that fits the width.
pub proof fn lemma_le_value_of_bytes(x: nat, w: nat)
    requires
        x < pow256(w),
    ensures
        le_value(le_bytes(x, w)) == x,
    decreases w,
{
    if w > 0 {
        let rest = le_bytes(x / 256, (w - 1) as nat);
        let all = le_bytes(x, w);
        assert(all.skip(1) =~= rest);
        assert(x / 256 < pow256((w - 1) as nat)) by (nonlinear_arith)
            requires
                x < 256 * pow256((w - 1) as nat),
        ;
        lemma_le_value_of_bytes(x / 256, (w - 1) as nat);
        lemma_le_bytes_len(x / 256, (w - 1) as nat);
        assert(all[0] == (x % 256) as u8);
        assert(x == x % 256 + 256 * (x / 256)) by (nonlinear_arith);
    }
}

/// A decoded number fits the width of its bytes, and encodes to them.
pub proof fn lemma_le_bytes_of_value(s: Seq<u8>)
    ensures
        le_value(s) < pow256(s.len()),
        le_bytes(le_value(s), s.len()) == s,
    decreases s.len(),
{
    if s.len() > 0 {
        let tail = s.skip(1);
        lemma_le_bytes_of_value(tail);
        let v = le_value(s);
        let t = le_value(tail);
        assert(v == s[0] as nat + 256 * t);
        assert(v % 256 == s[0] as nat && v / 256 == t) by (nonlinear_arith)
            requires
                v == s[0] as nat + 256 * t,
                (s[0] as nat) < 256,
        ;
        assert(v < 256 * pow256(tail.len())) by (nonlinear_arith)
            requires
                v == s[0] as nat + 256 * t,
                s[0] as nat <= 255,
                t < pow256(tail.len()),
        ;
        assert(le_bytes(v, s.len()) =~= s);
    }
}

/// Appends the `w` low bytes of `x`, least significant first.
pub fn put_le(out: &mut Vec<u8>, x: u128, w: usize)
    ensures
        final(out)@ == old(out)@ + le_bytes(x as nat, w as nat),
{
    let mut rest: u128 = x;
    let mut i: usize = 0;
    assert(le_bytes(x as nat, 0) =~= Seq::empty());
    while i < w
        invariant
            i <= w,
            out@ + le_bytes(rest as nat, (w - i) as nat) == old(out)@ + le_bytes(
                x as nat,
                w as nat,
            ),
        decreases w - i,
    {
        let ghost before = out@;
        out.push((rest % 256) as u8);
        proof {
            let tail = le_bytes((rest / 256) as nat, (w - i - 1) as nat);
            assert(le_bytes(rest as nat, (w - i) as nat) == seq![(rest % 256) as u8] + tail);
            assert(out@ + tail =~= before + (seq![(rest % 256) as u8] + tail));
        }
        rest = rest / 256;
        i += 1;
    }
    assert(le_bytes(rest as nat, 0) =~= Seq::empty());
    assert(out@ + Seq::<u8>::empty() =~= out@);
}

/// Reads the number that the `w` bytes from `pos` on spell, least significant first.
pub fn get_le(bytes: &[u8], pos: usize, w: usize) -> (r: u128)
    requires
        w <= 16,
        pos + w <= bytes@.len(),
    ensures
        r == le_value(bytes@.subrange(pos as int, pos + w)),
{
    let ghost s = bytes@.subrange(pos as int, pos + w);
    let n = bytes.len();
    let mut acc: u128 = 0;
    let mut i: usize = w;
    assert(s.skip(w as int) =~= Seq::empty());
    while i > 0
        invariant
            i <= w <= 16,
            pos + w <= n == bytes@.len(),
            s == bytes@.subrange(pos as int, pos + w),
            acc == le_value(s.skip(i as int)),
        decreases i,
    {
        i -= 1;
        proof {
            let cur = s.skip(i as int);
            assert(cur.skip(1) =~= s.skip(i + 1));
            assert(cur[0] == bytes@[pos + i]);
            lemma_le_bytes_of_value(s.skip(i + 1));
            lemma_pow256_bound((w - i - 1) as nat);
        }
        acc = bytes[pos + i] as u128 + 256 * acc;
    }
    assert(s.skip(0) =~= s);
    acc
}

/// A number of at most 15 bytes leaves room for one more byte in 128 bits.
proof fn lemma_pow256_bound(w: nat)
    requires
        w <= 15,
    ensures
        pow256(w) <= 0x100_0000_0000_0000_0000_0000_0000_0000,
    decreases 15 - w,
{
    reveal_with_fuel(pow256, 17);
}

/// A number as a variable-length integer: seven bits a byte, least significant
/// group first, the high bit set on every byte but the last.
pub open spec fn uvarint(n: nat) -> Seq<u8>
    decreases n,
{
    if n < 128 {
        seq![n as u8]
    } else {
        seq![(n % 128 + 128) as u8] + uvarint(n / 128)
    }
}

/// The greatest number that a variable-length integer can still spell once `k`
/// of its at most ten bytes are read.
pub open spec fn uvarint_limit(k: nat) -> nat
    decreases 9 - k,
{
    if k >= 9 {
        1
    } else {
        127 + 128 * uvarint_limit(k + 1)
    }
}

/// What reading a variable-length integer gives on `s`, where `k` bytes of it
/// were read before: the number and how many bytes it took. The input may end
/// too early; a tenth byte above one, or an eleventh byte, is an overflow.
pub open spec fn parse_uvarint_from(s: Seq<u8>, k: nat) -> Result<(nat, nat), DriverError>
    decreases s.len(),
{
    if s.len() == 0 {
        Err(DriverError::UnexpectedEof)
    } else if s[0] < 128 && (k < 9 || s[0] <= 1) {
        Ok((s[0] as nat, 1))
    } else if k >= 9 {
        Err(DriverError::Overflow)
    } else {
        match parse_uvarint_from(s.skip(1), k + 1) {
            Ok((v, c)) => Ok(((s[0] - 128) as nat + 128 * v, c + 1)),
            Err(e) => Err(e),
        }
    }
}

/// What reading a variable-length integer gives on `s`.
pub open spec fn parse_uvarint(s: Seq<u8>) -> Result<(nat, nat), DriverError> {
    parse_uvarint_from(s, 0)
}

/// A byte string on the wire: its length as a variable-length integer, then its bytes.
pub open spec fn wire_string(bytes: Seq<u8>) -> Seq<u8> {
    uvarint(bytes.len()) + bytes
}

/// What reading a byte string gives on `s`: the bytes and how many bytes the
/// length and they took.
pub open spec fn parse_string(s: Seq<u8>) -> Result<(Seq<u8>, nat), DriverError> {
    match parse_uvarint(s) {
        Ok((len, c)) => if c + len > s.len() {
            Err(DriverError::UnexpectedEof)
        } else {
            Ok((s.subrange(c as int, (c + len) as int), c + len))
        },
        Err(e) => Err(e),
    }
}

pub proof fn lemma_uvarint_limit(k: nat)
    ensures
        1 <= uvarint_limit(k) <= u64::MAX,
        uvarint_limit(0) == u64::MAX,
    decreases 9 - k,
{
    reveal_with_fuel(uvarint_limit, 11);
    if k < 9 {
        lemma_uvarint_limit(k + 1);
    }
}

/// A parsed number is within the limit of its position and takes at least one
/// and at most what is left of ten bytes, all of them in the input.
pub proof fn lemma_parse_uvarint_bounds(s: Seq<u8>, k: nat)
    requires
        k <= 9,
    ensures
        parse_uvarint_from(s, k) matches Ok((v, c)) ==> v <= uvarint_limit(k) && 1 <= c <= 10 - k
            && c <= s.len(),
    decreases s.len(),
{
    if s.len() > 0 && !(s[0] < 128 && (k < 9 || s[0] <= 1)) && k < 9 {
        lemma_parse_uvarint_bounds(s.skip(1), k + 1);
    }
}

/// Reading undoes writing: a number within the limit of the position is read
/// back, with nothing of what follows it consumed.
pub proof fn lemma_parse_uvarint_of(n: nat, rest: Seq<u8>, k: nat)
    requires
        k <= 9,
        n <= uvarint_limit(k),
    ensures
        parse_uvarint_from(uvarint(n) + rest, k) == Ok::<(nat, nat), DriverError>(
            (n, uvarint(n).len()),
        ),
    decreases n,
{
    let s = uvarint(n) + rest;
    if n < 128 {
        assert(s[0] == n as u8);
    } else {
        assert(s[0] == (n % 128 + 128) as u8);
        assert(k < 9);
        assert(n / 128 <= uvarint_limit(k + 1)) by (nonlinear_arith)
            requires
                n <= 127 + 128 * uvarint_limit(k + 1),
        ;
        lemma_parse_uvarint_of(n / 128, rest, k + 1);
        assert(s.skip(1) =~= uvarint(n / 128) + rest);
        assert(n == n % 128 + 128 * (n / 128)) by (nonlinear_arith);
    }
}

/// Reading undoes writing a byte string whose length fits 64 bits.
pub proof fn lemma_parse_string_of(bytes: Seq<u8>, rest: Seq<u8>)
    requires
        bytes.len() <= u64::MAX,
    ensures
        parse_string(wire_string(bytes) + rest) == Ok::<(Seq<u8>, nat), DriverError>(
            (bytes, wire_string(bytes).len()),
        ),
{
    let head = uvarint(bytes.len());
    let s = wire_string(bytes) + rest;
    lemma_uvarint_limit(0);
    lemma_parse_uvarint_of(bytes.len(), bytes + rest, 0);
    assert(s =~= head + (bytes + rest));
    assert(s.subrange(head.len() as int, (head.len() + bytes.len()) as int) =~= bytes);
}

/// Appends a number as a variable-length integer.
pub fn put_uvarint(out: &mut Vec<u8>, n: u64)
    ensures
        final(out)@ == old(out)@ + uvarint(n as nat),
{
    let mut rest: u64 = n;
    while rest >= 128
        invariant
            out@ + uvarint(rest as nat) == old(out)@ + uvarint(n as nat),
        decreases rest,
    {
        let ghost before = out@;
        out.push((rest % 128 + 128) as u8);
        proof {
            let tail = uvarint((rest / 128) as nat);
            assert(uvarint(rest as nat) == seq![(rest % 128 + 128) as u8] + tail);
            assert(out@ + tail =~= before + (seq![(rest % 128 + 128) as u8] + tail));
        }
        rest = rest / 128;
    }
    let ghost before = out@;
    out.push(rest as u8);
    assert(out@ =~= before + uvarint(rest as nat));
}

/// Appends a byte string: its length, then its bytes.
pub fn put_string(out: &mut Vec<u8>, bytes: &[u8])
    ensures
        final(out)@ == old(out)@ + wire_string(bytes@),
{
    put_uvarint(out, bytes.len() as u64);
    let ghost head = out@;
    let mut i: usize = 0;
    while i < bytes.len()
        invariant
            i <= bytes.len(),
            out@ == head + bytes@.subrange(0, i as int),
        decreases bytes.len() - i,
    {
        out.push(bytes[i]);
        assert(out@ =~= head + bytes@.subrange(0, i + 1));
        i += 1;
    }
    assert(bytes@.subrange(0, bytes@.len() as int) =~= bytes@);
    assert(out@ =~= old(out)@ + wire_string(bytes@));
}

fn get_uvarint_from(bytes: &[u8], pos: usize, k: usize) -> (r: Result<(u64, usize), DriverError>)
    requires
        pos <= bytes@.len(),
        k <= 9,
    ensures
        match (r, parse_uvarint_from(bytes@.skip(pos as int), k as nat)) {
            (Ok((v, end)), Ok((n, c))) => v == n && end == pos + c,
            (Err(e), Err(f)) => e == f,
            _ => false,
        },
    decreases bytes@.len() - pos,
{
    let ghost s = bytes@.skip(pos as int);
    if pos >= bytes.len() {
        return Err(DriverError::UnexpectedEof);
    }
    let b = bytes[pos];
    assert(s[0] == b);
    if b < 128 && (k < 9 || b <= 1) {
        return Ok((b as u64, pos + 1));
    }
    if k >= 9 {
        return Err(DriverError::Overflow);
    }
    assert(s.skip(1) =~= bytes@.skip(pos + 1));
    match get_uvarint_from(bytes, pos + 1, k + 1) {
        Ok((v, end)) => {
            proof {
                lemma_parse_uvarint_bounds(s.skip(1), (k + 1) as nat);
                lemma_uvarint_limit(k as nat);
                lemma_uvarint_limit((k + 1) as nat);
            }
            Ok(((b - 128) as u64 + 128 * v, end))
        },
        Err(e) => Err(e),
    }
}

/// Reads a variable-length integer at `pos`; gives the number and the position behind it.
pub fn get_uvarint(bytes: &[u8], pos: usize) -> (r: Result<(u64, usize), DriverError>)
    requires
        pos <= bytes@.len(),
    ensures
        match (r, parse_uvarint(bytes@.skip(pos as int))) {
            (Ok((v, end)), Ok((n, c))) => v == n && end == pos + c && end <= bytes@.len(),
            (Err(e), Err(f)) => e == f,
            _ => false,
        },
{
    proof {
        lemma_parse_uvarint_bounds(bytes@.skip(pos as int), 0);
    }
    get_uvarint_from(bytes, pos, 0)
}

/// Reads a byte string at `pos`; gives the bytes and the position behind them.
pub fn get_string(bytes: &[u8], pos: usize) -> (r: Result<(Vec<u8>, usize), DriverError>)
    requires
        pos <= bytes@.len(),
    ensures
        match (r, parse_string(bytes@.skip(pos as int))) {
            (Ok((text, end)), Ok((t, c))) => text@ == t && end == pos + c && end <= bytes@.len(),
            (Err(e), Err(f)) => e == f,
            _ => false,
        },
{
    let ghost s = bytes@.skip(pos as int);
    let (len, from) = match get_uvarint(bytes, pos) {
        Ok(pair) => pair,
        Err(e) => {
            return Err(e);
        },
    };
    let total = bytes.len();
    let left = total - from;
    if len > left as u64 {
        return Err(DriverError::UnexpectedEof);
    }
    let len = len as usize;
    let mut text: Vec<u8> = Vec::with_capacity(len);
    let mut i: usize = 0;
    while i < len
        invariant
            i <= len,
            from + len <= total == bytes@.len(),
            text@ == bytes@.subrange(from as int, from + i),
        decreases len - i,
    {
        text.push(bytes[from + i]);
        assert(text@ =~= bytes@.subrange(from as int, from + i + 1));
        i += 1;
    }
    assert(bytes@.subrange(from as int, from + len) =~= s.subrange(from - pos, from - pos + len));
    Ok((text, from + len))
}

/// `String::from_utf8`: a string made of exactly these bytes where they are
/// valid UTF-8, and nothing where they are not.
#[verifier::external_body]
fn text_of(bytes: Vec<u8>) -> (r: Option<String>)
    ensures
        r is Some <==> vstd::utf8::valid_utf8(bytes@),
        r matches Some(text) ==> vstd::utf8::encode_utf8(text@) == bytes@,
{
    match String::from_utf8(bytes) {
        Ok(text) => Some(text),
        Err(_) => None,
    }
}

/// What reading a text gives on `s`: a byte string that is valid UTF-8.
pub open spec fn parse_text(s: Seq<u8>) -> Result<(Seq<char>, nat), DriverError> {
    match parse_string(s) {
        Ok((bytes, c)) => if vstd::utf8::valid_utf8(bytes) {
            Ok((vstd::utf8::decode_utf8(bytes), c))
        } else {
            Err(DriverError::Utf8Error)
        },
        Err(e) => Err(e),
    }
}

/// Reads a text at `pos`; gives the text and the position behind it.
pub fn get_text(bytes: &[u8], pos: usize) -> (r: Result<(String, usize), DriverError>)
    requires
        pos <= bytes@.len(),
    ensures
        match (r, parse_text(bytes@.skip(pos as int))) {
            (Ok((text, end)), Ok((t, c))) => text@ == t && end == pos + c && end <= bytes@.len(),
            (Err(e), Err(f)) => e == f,
            _ => false,
        },
{
    match get_string(bytes, pos) {
        Ok((raw, end)) => match text_of(raw) {
            Some(text) => {
                proof {
                    vstd::utf8::encode_utf8_decode_utf8(text@);
                }
                Ok((text, end))
            },
            None => Err(DriverError::Utf8Error),
        },
        Err(e) => Err(e),
    }
}

/// Collects the bytes of a message.
pub struct Encoder {
    pub buffer: Vec<u8>,
}

impl View for Encoder {
    type V = Seq<u8>;

    open spec fn view(&self) -> Seq<u8> {
        self.buffer@
    }
}

impl Encoder {
    /// An encoder that holds no bytes.
    pub fn new() -> (r: Self)
        ensures
            r@ == Seq::<u8>::empty(),
    {
        Encoder { buffer: Vec::new() }
    }

    /// The bytes collected so far.
    pub fn get_buffer(self) -> (r: Vec<u8>)
        ensures
            r@ == self@,
    {
        self.buffer
    }

    /// Appends a number as a variable-length integer.
    pub fn uvarint(&mut self, n: u64)
        ensures
            final(self)@ == old(self)@ + uvarint(n as nat),
    {
        put_uvarint(&mut self.buffer, n);
    }

    /// Appends a text: the length of its UTF-8 bytes, then the bytes.
    pub fn string(&mut self, text: &str)
        ensures
            final(self)@ == old(self)@ + wire_string(vstd::utf8::encode_utf8(text@)),
    {
        put_string(&mut self.buffer, text.as_bytes());
    }

    /// Appends bytes as they are.
    pub fn write_bytes(&mut self, bytes: &[u8])
        ensures
            final(self)@ == old(self)@ + bytes@,
    {
        let mut i: usize = 0;
        while i < bytes.len()
            invariant
                i <= bytes.len(),
                self@ == old(self)@ + bytes@.subrange(0, i as int),
            decreases bytes.len() - i,
        {
            self.buffer.push(bytes[i]);
            assert(self@ =~= old(self)@ + bytes@.subrange(0, i + 1));
            i += 1;
        }
        assert(bytes@.subrange(0, bytes@.len() as int) =~= bytes@);
        assert(old(self)@ + Seq::<u8>::empty() =~= old(self)@);
    }
}

} // verus!
