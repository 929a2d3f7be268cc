//! Decimal widths and scale arithmetic.

use vstd::prelude::*;
use vstd::arithmetic::div_mod::lemma_div_denominator;
use vstd::arithmetic::mul::lemma_mul_inequality;

verus! {

/// Width of the integer that backs a decimal column.
#[derive(Clone, Copy, Debug, PartialEq, Eq, Structural)]
pub enum NoBits {
    N32,
    N64,
    N128,
}

/// A fixed-point number: `underlying / 10^scale`, with `precision` digits.
#[derive(Clone, Copy, Debug, PartialEq, Eq, Structural)]
pub struct Decimal {
    pub underlying: i128,
    pub precision: u8,
    pub scale: u8,
}

impl NoBits {
    /// The width that a precision selects, if the precision is supported.
    pub open spec fn spec_from_precision(precision: u8) -> Option<NoBits> {
        if 1 <= precision <= 9 {
            Some(NoBits::N32)
        } else if 10 <= precision <= 18 {
            Some(NoBits::N64)
        } else if 19 <= precision <= 38 {
            Some(NoBits::N128)
        } else {
            None
        }
    }

    /// The width of a precision, taking every unsupported precision as the widest.
    pub open spec fn of(precision: u8) -> NoBits {
        match Self::spec_from_precision(precision) {
            Some(bits) => bits,
            None => NoBits::N128,
        }
    }

    /// Least integer of the width.
    pub open spec fn min(self) -> int {
        match self {
            NoBits::N32 => i32::MIN as int,
            NoBits::N64 => i64::MIN as int,
            NoBits::N128 => i128::MIN as int,
        }
    }

    /// Greatest integer of the width.
    pub open spec fn max(self) -> int {
        match self {
            NoBits::N32 => i32::MAX as int,
            NoBits::N64 => i64::MAX as int,
            NoBits::N128 => i128::MAX as int,
        }
    }

    /// Bytes that one integer of the width takes on the wire.
    pub open spec fn bytes(self) -> nat {
        match self {
            NoBits::N32 => 4,
            NoBits::N64 => 8,
            NoBits::N128 => 16,
        }
    }

    /// Whether an integer is within the width.
    pub open spec fn holds(self, x: int) -> bool {
        self.min() <= x <= self.max()
    }

    /// The nearest integer within the width.
    pub open spec fn clamp(self, x: int) -> int {
        if x < self.min() {
            self.min()
        } else if x > self.max() {
            self.max()
        } else {
            x
        }
    }

    /// Selects the storage width for a precision: 1 to 9 digits take 32 bits,
    /// 10 to 18 take 64 bits, 19 to 38 take 128 bits; anything else has no width.
    pub fn from_precision(precision: u8) -> (r: Option<NoBits>)
        ensures
            r == Self::spec_from_precision(precision),
    {
        if precision == 0 {
            None
        } else if precision <= 9 {
            Some(NoBits::N32)
        } else if precision <= 18 {
            Some(NoBits::N64)
        } else if precision <= 38 {
            Some(NoBits::N128)
        } else {
            None
        }
    }

    /// Decides whether an integer is within the width.
    pub fn fits(self, x: i128) -> (r: bool)
        ensures
            r == self.holds(x as int),
    {
        match self {
            NoBits::N32 => -0x8000_0000 <= x && x <= 0x7fff_ffff,
            NoBits::N64 => -0x8000_0000_0000_0000 <= x && x <= 0x7fff_ffff_ffff_ffff,
            NoBits::N128 => true,
        }
    }

    /// Brings an integer to the nearest one within the width.
    pub fn saturate(self, x: i128) -> (r: i128)
        ensures
            r == self.clamp(x as int),
    {
        match self {
            NoBits::N32 => if x < -0x8000_0000 {
                -0x8000_0000
            } else if x > 0x7fff_ffff {
                0x7fff_ffff
            } else {
                x
            },
            NoBits::N64 => if x < -0x8000_0000_0000_0000 {
                -0x8000_0000_0000_0000
            } else if x > 0x7fff_ffff_ffff_ffff {
                0x7fff_ffff_ffff_ffff
            } else {
                x
            },
            NoBits::N128 => x,
        }
    }
}

/// Ten to the power `e`.
pub open spec fn pow10(e: nat) -> nat
    decreases e,
{
    if e == 0 {
        1
    } else {
        10 * pow10((e - 1) as nat)
    }
}

/// Division that rounds toward zero.
pub open spec fn truncating_div(x: int, d: int) -> int {
    if x >= 0 {
        x / d
    } else {
        -((-x) / d)
    }
}

/// The integer that stands at scale `to` for what `x` is at scale `from`,
/// brought within the width `bits`: a finer scale multiplies by a power of ten,
/// a coarser one divides and drops the remainder.
pub open spec fn rescaled(x: int, from: u8, to: u8, bits: NoBits) -> int {
    if to >= from {
        bits.clamp(x * pow10((to - from) as nat))
    } else {
        bits.clamp(truncating_div(x, pow10((from - to) as nat) as int))
    }
}

proof fn lemma_pow10_positive(e: nat)
    ensures
        pow10(e) >= 1,
    decreases e,
{
    if e > 0 {
        lemma_pow10_positive((e - 1) as nat);
    }
}

proof fn lemma_pow10_monotone(a: nat, b: nat)
    requires
        a <= b,
    ensures
        pow10(a) <= pow10(b),
    decreases b,
{
    if a < b {
        lemma_pow10_monotone(a, (b - 1) as nat);
        lemma_pow10_positive((b - 1) as nat);
    }
}

/// `x` times ten to the power `k`, or the nearest 128-bit integer.
fn mul_pow10(x: i128, k: u8) -> (r: i128)
    ensures
        r == NoBits::N128.clamp(x * pow10(k as nat)),
{
    let mut acc: i128 = x;
    let mut j: u8 = 0;
    assert(x * pow10(0) == x) by (nonlinear_arith)
        requires
            pow10(0) == 1,
    ;
    while j < k
        invariant
            j <= k,
            acc == x * pow10(j as nat),
        decreases k - j,
    {
        match acc.checked_mul(10) {
            Some(v) => {
                assert(x * pow10((j + 1) as nat) == (x * pow10(j as nat)) * 10) by (nonlinear_arith)
                    requires
                        pow10((j + 1) as nat) == 10 * pow10(j as nat),
                ;
                acc = v;
                j = j + 1;
            },
            None => {
                proof {
                    let step = pow10((j + 1) as nat) as int;
                    let full = pow10(k as nat) as int;
                    lemma_pow10_monotone((j + 1) as nat, k as nat);
                    assert(x * step == acc * 10) by (nonlinear_arith)
                        requires
                            step == 10 * pow10(j as nat),
                            acc == x * pow10(j as nat),
                    ;
                    if x > 0 {
                        lemma_mul_inequality(step, full, x as int);
                        assert(x * full == full * x) by (nonlinear_arith);
                        assert(x * step == step * x) by (nonlinear_arith);
                    } else {
                        assert(x < 0) by (nonlinear_arith)
                            requires
                                x <= 0,
                                x * step < i128::MIN || x * step > i128::MAX,
                                step >= 0,
                        ;
                        lemma_mul_inequality(step, full, -(x as int));
                        assert(full * (-(x as int)) == -(x * full)) by (nonlinear_arith);
                        assert(step * (-(x as int)) == -(x * step)) by (nonlinear_arith);
                        assert(x * step <= 0) by (nonlinear_arith)
                            requires
                                x < 0,
                                step >= 0,
                        ;
                    }
                }
                return if x > 0 {
                    i128::MAX
                } else {
                    i128::MIN
                };
            },
        }
    }
    acc
}

/// `x` divided by ten to the power `k`, rounded toward zero.
fn div_pow10(x: i128, k: u8) -> (r: i128)
    ensures
        r == truncating_div(x as int, pow10(k as nat) as int),
{
    if k == 0 {
        return x;
    }
    let negative = x < 0;
    let start: u128 = if negative {
        ((-(x + 1)) as u128) + 1
    } else {
        x as u128
    };
    let mut mag: u128 = start;
    let mut j: u8 = 0;
    assert(start as int / pow10(0) as int == start) by {
        assert(pow10(0) == 1);
    }
    while j < k
        invariant
            j <= k,
            mag == start as int / pow10(j as nat) as int,
            j >= 1 ==> mag <= start / 10,
        decreases k - j,
    {
        proof {
            lemma_pow10_positive(j as nat);
            lemma_div_denominator(start as int, pow10(j as nat) as int, 10);
            assert(pow10(j as nat) * 10 == pow10((j + 1) as nat));
        }
        mag = mag / 10;
        j = j + 1;
    }
    if negative {
        -(mag as i128)
    } else {
        mag as i128
    }
}

impl Decimal {
    /// The width that the decimal's precision selects.
    pub open spec fn nobits(&self) -> NoBits {
        NoBits::of(self.precision)
    }

    /// The same quantity at another precision and scale, as nearly as the new
    /// width can hold it.
    pub open spec fn spec_set_scale(self, precision: u8, scale: u8) -> Decimal {
        Decimal {
            underlying: rescaled(
                self.underlying as int,
                self.scale,
                scale,
                NoBits::of(precision),
            ) as i128,
            precision,
            scale,
        }
    }

    /// Rescales the decimal to `scale` and gives it the width of `precision`.
    pub fn set_scale(self, precision: u8, scale: u8) -> (r: Decimal)
        ensures
            r == self.spec_set_scale(precision, scale),
            NoBits::of(precision).holds(r.underlying as int),
    {
        let bits = match NoBits::from_precision(precision) {
            Some(bits) => bits,
            None => NoBits::N128,
        };
        let moved = if scale >= self.scale {
            mul_pow10(self.underlying, scale - self.scale)
        } else {
            div_pow10(self.underlying, self.scale - scale)
        };
        let underlying = bits.saturate(moved);
        proof {
            let exact = if scale >= self.scale {
                self.underlying * pow10((scale - self.scale) as nat)
            } else {
                truncating_div(self.underlying as int, pow10((self.scale - scale) as nat) as int)
            };
            assert(moved == NoBits::N128.clamp(exact));
            assert(bits.clamp(moved as int) == bits.clamp(exact));
        }
        Decimal { underlying, precision, scale }
    }
}

} // verus!
