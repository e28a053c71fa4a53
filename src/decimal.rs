//! Decimal numbers: the one numeric type of a schema, as the form shows it and as the wire carries it.
use vstd::prelude::*;
use crate::text::{
    pow10, digits, zeros, digit_chars, push_char, push_chars, push_zeros, lemma_pow10_positive,
    lemma_pow10_adds, lemma_pow10_monotonic, lemma_digit_count,
};

verus! {

/// The number `(-1)^negative * coefficient * 10^exponent`.
///
/// A well-formed value is in its shortest form: the coefficient has no trailing zero, and zero is
/// `0 * 10^0` without a sign. Each number then has exactly one well-formed representation.
#[derive(Clone, Copy, Debug, PartialEq, Eq, Structural)]
pub struct Decimal {
    pub negative: bool,
    pub coefficient: u64,
    pub exponent: i32,
}

/// The shortest form of `c * 10^e`: the trailing zeros of `c` go into the exponent, and zero is
/// `(0, 0)`.
pub open spec fn strip(c: nat, e: int) -> (nat, int)
    decreases c,
{
    if c == 0 {
        (0, 0)
    } else if c % 10 == 0 {
        strip(c / 10, e + 1)
    } else {
        (c, e)
    }
}

/// Whether the shortest form `(c, e)` fits a `Decimal`.
pub open spec fn representable(c: nat, e: int) -> bool {
    c <= u64::MAX && i32::MIN <= e <= i32::MAX
}

/// The `Decimal` of sign `negative` and shortest form `(c, e)`.
pub open spec fn decimal_of(negative: bool, c: nat, e: int) -> Decimal {
    Decimal { negative: negative && c != 0, coefficient: c as u64, exponent: e as i32 }
}

/// The canonical text of a decimal: an optional `-`, digits, and a fractional part only where the
/// number has one. No exponent is written, and no zero that the value does not need.
pub open spec fn text_of(d: Decimal) -> Seq<char> {
    let ds = digits(d.coefficient as nat);
    let sign = if d.negative {
        seq!['-']
    } else {
        Seq::<char>::empty()
    };
    if d.exponent >= 0 {
        sign + ds + zeros(d.exponent as nat)
    } else {
        let k = -d.exponent;
        if ds.len() > k {
            sign + ds.take(ds.len() - k) + seq!['.'] + ds.skip(ds.len() - k)
        } else {
            sign + seq!['0', '.'] + zeros((k - ds.len()) as nat) + ds
        }
    }
}

/// The smaller of the two exponents.
pub open spec fn common_exponent(a: Decimal, b: Decimal) -> int {
    if a.exponent <= b.exponent {
        a.exponent as int
    } else {
        b.exponent as int
    }
}

/// The magnitude of `d` in units of `10^e`, for `e` at most its exponent.
pub open spec fn magnitude_in(d: Decimal, e: int) -> int {
    d.coefficient * pow10((d.exponent - e) as nat)
}

/// The value of `d` in units of `10^e`, for `e` at most its exponent.
pub open spec fn value_in(d: Decimal, e: int) -> int {
    if d.negative {
        -magnitude_in(d, e)
    } else {
        magnitude_in(d, e)
    }
}

/// Whether `a <= b` as numbers.
pub open spec fn value_le(a: Decimal, b: Decimal) -> bool {
    value_in(a, common_exponent(a, b)) <= value_in(b, common_exponent(a, b))
}

/// Whether `d > 0`.
pub open spec fn is_positive(d: Decimal) -> bool {
    !d.negative && d.coefficient > 0
}

proof fn lemma_magnitude_bounds(d: Decimal, e: int)
    requires
        d.coefficient > 0,
        e <= d.exponent,
    ensures
        magnitude_in(d, e) >= 1,
        pow10((digits(d.coefficient as nat).len() - 1 + d.exponent - e) as nat) <= magnitude_in(d, e),
        magnitude_in(d, e) < pow10((digits(d.coefficient as nat).len() + d.exponent - e) as nat),
{
    let c = d.coefficient as nat;
    let l = digits(c).len();
    let k = (d.exponent - e) as nat;
    lemma_digit_count(c);
    lemma_pow10_positive(k);
    lemma_pow10_adds((l - 1) as nat, k);
    lemma_pow10_adds(l, k);
    let lo = pow10((l - 1) as nat);
    let hi = pow10(l);
    let p = pow10(k);
    assert(lo * p <= c * p && c * p < hi * p && c * p >= 1) by (nonlinear_arith)
        requires
            lo <= c,
            c < hi,
            p >= 1,
            c >= 1,
    ;
}

/// `a`'s magnitude is at most `b`'s.
fn magnitude_le(a: &Decimal, b: &Decimal) -> (r: bool)
    ensures
        r == (magnitude_in(*a, common_exponent(*a, *b)) <= magnitude_in(*b, common_exponent(*a, *b))),
{
    let ghost e = common_exponent(*a, *b);
    if a.coefficient == 0 {
        proof {
            lemma_pow10_positive((b.exponent - e) as nat);
            assert(0 * pow10((a.exponent - e) as nat) == 0);
            let c = b.coefficient as nat;
            let p = pow10((b.exponent - e) as nat);
            assert(c * p >= 0) by (nonlinear_arith);
        }
        return true;
    }
    if b.coefficient == 0 {
        proof {
            lemma_magnitude_bounds(*a, e);
            assert(0 * pow10((b.exponent - e) as nat) == 0);
        }
        return false;
    }
    let la = digit_chars(a.coefficient as u128).len();
    let lb = digit_chars(b.coefficient as u128).len();
    proof {
        lemma_digit_count(a.coefficient as nat);
        lemma_digit_count(b.coefficient as nat);
        lemma_magnitude_bounds(*a, e);
        lemma_magnitude_bounds(*b, e);
    }
    let top_a: i64 = la as i64 + a.exponent as i64;
    let top_b: i64 = lb as i64 + b.exponent as i64;
    if top_a < top_b {
        proof {
            lemma_pow10_monotonic((top_a - e) as nat, (top_b - 1 - e) as nat);
        }
        return true;
    }
    if top_a > top_b {
        proof {
            lemma_pow10_monotonic((top_b - e) as nat, (top_a - 1 - e) as nat);
        }
        return false;
    }
    if a.exponent >= b.exponent {
        let k: u32 = (a.exponent as i64 - b.exponent as i64) as u32;
        let q = crate::fixed::small_pow10(k);
        proof {
            assert(pow10(0) == 1);
            assert(b.coefficient * 1 == b.coefficient);
            let c = a.coefficient as nat;
            assert(c * q <= 18446744073709551615 * 100_000_000_000_000_000_000) by (nonlinear_arith)
                requires
                    c <= 18446744073709551615,
                    q <= 100_000_000_000_000_000_000,
            ;
        }
        (a.coefficient as u128) * q <= b.coefficient as u128
    } else {
        let k: u32 = (b.exponent as i64 - a.exponent as i64) as u32;
        let q = crate::fixed::small_pow10(k);
        proof {
            assert(pow10(0) == 1);
            assert(a.coefficient * 1 == a.coefficient);
            let c = b.coefficient as nat;
            assert(c * q <= 18446744073709551615 * 100_000_000_000_000_000_000) by (nonlinear_arith)
                requires
                    c <= 18446744073709551615,
                    q <= 100_000_000_000_000_000_000,
            ;
        }
        (a.coefficient as u128) <= (b.coefficient as u128) * q
    }
}

impl Decimal {
    pub open spec fn wf(&self) -> bool {
        if self.coefficient == 0 {
            !self.negative && self.exponent == 0
        } else {
            self.coefficient % 10 != 0
        }
    }

    /// The zero decimal.
    pub fn zero() -> (r: Decimal)
        ensures
            r.wf(),
            r.coefficient == 0,
    {
        Decimal { negative: false, coefficient: 0, exponent: 0 }
    }

    /// Whether `self <= other` as numbers.
    pub fn le(&self, other: &Decimal) -> (r: bool)
        requires
            self.wf(),
            other.wf(),
        ensures
            r == value_le(*self, *other),
    {
        let ghost e = common_exponent(*self, *other);
        let ghost ma = magnitude_in(*self, e);
        let ghost mb = magnitude_in(*other, e);
        proof {
            lemma_pow10_positive((self.exponent - e) as nat);
            lemma_pow10_positive((other.exponent - e) as nat);
            let ca = self.coefficient as nat;
            let cb = other.coefficient as nat;
            let pa = pow10((self.exponent - e) as nat);
            let pb = pow10((other.exponent - e) as nat);
            assert(ca * pa >= 0 && cb * pb >= 0) by (nonlinear_arith);
            assert(cb > 0 ==> cb * pb > 0) by (nonlinear_arith)
                requires
                    pb >= 1,
            ;
            assert(ca > 0 ==> ca * pa > 0) by (nonlinear_arith)
                requires
                    pa >= 1,
            ;
        }
        if self.negative && !other.negative {
            true
        } else if !self.negative && other.negative {
            false
        } else if self.negative {
            magnitude_le(other, self)
        } else {
            magnitude_le(self, other)
        }
    }

    /// Whether this value is in its shortest form (see `wf`).
    pub fn is_wf(&self) -> (r: bool)
        ensures
            r == self.wf(),
    {
        if self.coefficient == 0 {
            !self.negative && self.exponent == 0
        } else {
            self.coefficient % 10 != 0
        }
    }

    /// Whether this number is greater than zero.
    pub fn is_positive(&self) -> (r: bool)
        ensures
            r == is_positive(*self),
    {
        !self.negative && self.coefficient > 0
    }

    /// The canonical text of this number (see `text_of`).
    pub fn to_text(&self) -> (r: String)
        ensures
            r@ == text_of(*self),
    {
        let ds = digit_chars(self.coefficient as u128);
        let mut s = String::new();
        if self.negative {
            push_char(&mut s, '-');
        }
        if self.exponent >= 0 {
            push_chars(&mut s, &ds, 0, ds.len());
            push_zeros(&mut s, self.exponent as u128);
            assert(ds@.subrange(0, ds@.len() as int) =~= ds@);
        } else {
            let k: u64 = (-(self.exponent as i64)) as u64;
            if (ds.len() as u64) > k {
                let cut: usize = ds.len() - (k as usize);
                push_chars(&mut s, &ds, 0, cut);
                push_char(&mut s, '.');
                push_chars(&mut s, &ds, cut, ds.len());
                assert(ds@.subrange(0, cut as int) =~= ds@.take(cut as int));
                assert(ds@.subrange(cut as int, ds@.len() as int) =~= ds@.skip(cut as int));
            } else {
                push_char(&mut s, '0');
                push_char(&mut s, '.');
                push_zeros(&mut s, (k - (ds.len() as u64)) as u128);
                push_chars(&mut s, &ds, 0, ds.len());
                assert(ds@.subrange(0, ds@.len() as int) =~= ds@);
            }
        }
        proof {
            assert(s@ =~= text_of(*self));
        }
        s
    }
}

/// A coefficient without trailing zero keeps its shortest form when scaled by a power of ten:
/// `c * 10^z` at exponent `e` is `c` at exponent `e + z`.
pub proof fn lemma_strip_scaled(c: nat, z: nat, e: int)
    requires
        c > 0,
        c % 10 != 0,
    ensures
        strip(c * pow10(z), e) == (c, e + z),
    decreases z,
{
    if z == 0 {
        assert(c * 1 == c);
    } else {
        let z1 = (z - 1) as nat;
        lemma_pow10_positive(z1);
        let m = c * pow10(z1);
        assert(c * pow10(z) == c * (10 * pow10(z1)));
        assert(c * (10 * pow10(z1)) == m * 10) by (nonlinear_arith)
            requires
                m == c * pow10(z1),
        ;
        assert(m >= 1) by (nonlinear_arith)
            requires
                c > 0,
                pow10(z1) >= 1,
                m == c * pow10(z1),
        ;
        assert((m * 10) % 10 == 0 && (m * 10) / 10 == m);
        lemma_strip_scaled(c, z1, e + 1);
    }
}

} // verus!
