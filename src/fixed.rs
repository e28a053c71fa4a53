//! Results as the output field shows them: fixed point, with a set number of decimal places.
use vstd::prelude::*;
use crate::text::{
    pow10, digits, zeros, all_digits, is_digit, digit_chars, push_char, push_chars,
    push_zero_chars, lemma_digits_round_trip, lemma_digits_scaled, lemma_pow10_monotonic,
    lemma_pow10_positive,
};
use crate::decimal::Decimal;

verus! {

/// `|d| * 10^p`, rounded to the nearest integer; a half rounds away from zero.
pub open spec fn scaled_rounded(d: Decimal, p: nat) -> nat {
    let c = d.coefficient as nat;
    let s = d.exponent + p;
    if s >= 0 {
        c * pow10(s as nat)
    } else {
        let q = pow10((-s) as nat);
        (2 * c + q) / (2 * q)
    }
}

/// `ds` with leading zeros up to at least `p + 1` characters.
pub open spec fn pad_to(ds: Seq<char>, p: nat) -> Seq<char> {
    if ds.len() > p {
        ds
    } else {
        zeros((p + 1 - ds.len()) as nat) + ds
    }
}

/// The digits of `n`, with leading zeros up to at least `p + 1` of them, and a point before the
/// last `p` where `p > 0`.
pub open spec fn fixed_digits(n: nat, p: nat) -> Seq<char> {
    let padded = pad_to(digits(n), p);
    if p == 0 {
        padded
    } else {
        padded.take(padded.len() - p) + seq!['.'] + padded.skip(padded.len() - p)
    }
}

/// `d` written with exactly `p` decimal places; a `-` only where the rounded value is not zero.
pub open spec fn fixed_text(d: Decimal, p: nat) -> Seq<char> {
    let n = scaled_rounded(d, p);
    let sign = if d.negative && n > 0 {
        seq!['-']
    } else {
        Seq::<char>::empty()
    };
    sign + fixed_digits(n, p)
}

/// `10^k` for `k <= 20`.
pub(crate) fn small_pow10(k: u32) -> (q: u128)
    requires
        k <= 20,
    ensures
        q == pow10(k as nat),
        q <= 100_000_000_000_000_000_000,
{
    let mut q: u128 = 1;
    let mut t: u32 = 0;
    assert(pow10(20) == 100_000_000_000_000_000_000) by {
        reveal_with_fuel(pow10, 21);
    }
    while t < k
        invariant
            t <= k <= 20,
            q == pow10(t as nat),
            pow10(20) == 100_000_000_000_000_000_000,
        decreases k - t,
    {
        proof {
            lemma_pow10_monotonic(t as nat + 1, 20);
        }
        q = q * 10;
        t = t + 1;
    }
    proof {
        lemma_pow10_monotonic(k as nat, 20);
    }
    q
}

/// The digits of `scaled_rounded(d, p)`, and whether it is not zero.
fn rounded_digits(d: &Decimal, p: usize) -> (r: (Vec<char>, bool))
    ensures
        r.0@ == digits(scaled_rounded(*d, p as nat)),
        r.1 == (scaled_rounded(*d, p as nat) > 0),
{
    let c = d.coefficient;
    let s: i128 = d.exponent as i128 + p as i128;
    if s >= 0 {
        if c == 0 {
            return (digit_chars(0), false);
        }
        let mut ds = digit_chars(c as u128);
        push_zero_chars(&mut ds, s as u128);
        proof {
            lemma_digits_scaled(c as nat, s as nat);
            lemma_pow10_positive(s as nat);
            let a = c as nat;
            let b = pow10(s as nat);
            assert(a * b >= 1) by (nonlinear_arith)
                requires
                    a >= 1,
                    b >= 1,
            ;
        }
        (ds, true)
    } else {
        let k: i128 = -s;
        if k > 20 {
            proof {
                let q = pow10(k as nat);
                assert(pow10(21) == 1_000_000_000_000_000_000_000) by {
                    reveal_with_fuel(pow10, 22);
                }
                lemma_pow10_monotonic(21, k as nat);
                assert((2 * (c as nat) + q) / (2 * q) == 0) by (nonlinear_arith)
                    requires
                        2 * (c as nat) < q,
                ;
            }
            return (digit_chars(0), false);
        }
        let q = small_pow10(k as u32);
        proof {
            lemma_pow10_positive(k as nat);
        }
        let n: u128 = (2 * (c as u128) + q) / (2 * q);
        (digit_chars(n), n > 0)
    }
}

/// `ds` with leading zeros up to at least `p + 1` characters.
fn pad_digits(ds: &Vec<char>, p: usize) -> (r: Vec<char>)
    ensures
        r@ == pad_to(ds@, p as nat),
{
    let mut full: Vec<char> = Vec::new();
    if ds.len() <= p {
        push_zero_chars(&mut full, (p - ds.len()) as u128 + 1);
    }
    let mut i: usize = 0;
    let ghost pad = full@;
    while i < ds.len()
        invariant
            0 <= i <= ds.len(),
            full@ == pad + ds@.take(i as int),
        decreases ds.len() - i,
    {
        full.push(ds[i]);
        i = i + 1;
        assert(full@ =~= pad + ds@.take(i as int));
    }
    assert(ds@.take(ds.len() as int) =~= ds@);
    if ds.len() > p {
        assert(full@ =~= ds@);
    }
    full
}

/// `d` written with exactly `p` decimal places (see `fixed_text`).
pub fn to_fixed(d: &Decimal, p: usize) -> (r: String)
    ensures
        r@ == fixed_text(*d, p as nat),
{
    let (ds, nonzero) = rounded_digits(d, p);
    let full = pad_digits(&ds, p);
    assert(full.len() >= p + 1);
    let mut out = String::new();
    if d.negative && nonzero {
        push_char(&mut out, '-');
    }
    let cut: usize = full.len() - p;
    push_chars(&mut out, &full, 0, cut);
    if p > 0 {
        push_char(&mut out, '.');
        push_chars(&mut out, &full, cut, full.len());
    }
    proof {
        assert(full@.subrange(0, cut as int) =~= full@.take(cut as int));
        assert(full@.subrange(cut as int, full@.len() as int) =~= full@.skip(cut as int));
        if p == 0 {
            assert(full@.subrange(0, cut as int) =~= full@);
        }
        assert(out@ =~= fixed_text(*d, p as nat));
    }
    out
}

/// A result text holds exactly `p` digits after its decimal point and at least one before it, and
/// no point at all when `p` is zero.
pub proof fn lemma_fixed_places(d: Decimal, p: nat)
    ensures
        ({
            let t = fixed_text(d, p);
            let body = if t.len() > 0 && t[0] == '-' {
                t.drop_first()
            } else {
                t
            };
            &&& p == 0 ==> body.len() >= 1 && all_digits(body)
            &&& p > 0 ==> {
                &&& body.len() >= p + 2
                &&& body[body.len() - p - 1] == '.'
                &&& all_digits(body.take(body.len() - p - 1))
                &&& all_digits(body.skip(body.len() - p))
            }
        }),
{
    let n = scaled_rounded(d, p);
    let ds = digits(n);
    lemma_digits_round_trip(n);
    let padded = if ds.len() > p {
        ds
    } else {
        zeros((p + 1 - ds.len()) as nat) + ds
    };
    assert(padded.len() >= p + 1);
    assert(all_digits(padded)) by {
        if ds.len() <= p {
            let z = zeros((p + 1 - ds.len()) as nat);
            assert forall|i: int| 0 <= i < padded.len() implies is_digit(#[trigger] padded[i]) by {
                if i >= z.len() {
                    assert(padded[i] == ds[i - z.len()]);
                }
            }
        }
    }
    let f = fixed_digits(n, p);
    let t = fixed_text(d, p);
    let sign = if d.negative && n > 0 {
        seq!['-']
    } else {
        Seq::<char>::empty()
    };
    assert(t == sign + f);
    assert(is_digit(f[0]));
    let body = if t.len() > 0 && t[0] == '-' {
        t.drop_first()
    } else {
        t
    };
    assert(body =~= f);
    if p > 0 {
        let hi = padded.take(padded.len() - p);
        let lo = padded.skip(padded.len() - p);
        assert(body.take(body.len() - p - 1) =~= hi);
        assert(body.skip(body.len() - p) =~= lo);
        assert(all_digits(hi)) by {
            assert forall|i: int| 0 <= i < hi.len() implies is_digit(#[trigger] hi[i]) by {
                assert(hi[i] == padded[i]);
            }
        }
        assert(all_digits(lo)) by {
            assert forall|i: int| 0 <= i < lo.len() implies is_digit(#[trigger] lo[i]) by {
                assert(lo[i] == padded[i + padded.len() - p]);
            }
        }
    }
}

} // verus!
