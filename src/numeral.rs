//! Reading one number of the wire format: an optional `-`, decimal digits with an optional
//! fractional part, and an optional exponent (`e` or `E`, an optional sign, digits).
use vstd::prelude::*;
use crate::text::{
    pow10, is_digit, all_digits, char_digit, digits_value, digits, zeros, chars_of,
    lemma_pow10_positive, lemma_pow10_monotonic, lemma_digits_round_trip, lemma_digits_value_concat,
    lemma_zeros_value,
};
use crate::decimal::{Decimal, strip, representable, decimal_of, text_of, lemma_strip_scaled};

verus! {

/// Why a text is not a number that a `Decimal` holds.
#[derive(Clone, Copy, Debug, PartialEq, Eq, Structural)]
pub enum NumberError {
    /// The text is not a decimal numeral.
    Malformed,
    /// The numeral is well formed, but its shortest form has a coefficient beyond `u64` or an
    /// exponent beyond `i32`.
    OutOfRange,
}

/// The exponent of a numeral whose digits exceed this is certainly out of range.
pub const EXPONENT_CAP: u128 = 0x1_0000_0000_0000_0000_0000;

pub open spec fn sign_len(s: Seq<char>) -> int {
    if s.len() > 0 && s[0] == '-' {
        1
    } else {
        0
    }
}

/// The first index at or after `from` of an `e` or `E`; `s.len()` if there is none.
pub open spec fn find_exp_mark(s: Seq<char>, from: int) -> int
    decreases s.len() - from,
{
    if from < 0 || from >= s.len() {
        s.len() as int
    } else if s[from] == 'e' || s[from] == 'E' {
        from
    } else {
        find_exp_mark(s, from + 1)
    }
}

/// The first index in `from..to` of a `.`; `to` if there is none.
pub open spec fn find_point(s: Seq<char>, from: int, to: int) -> int
    decreases to - from,
{
    if from < 0 || from >= to {
        to
    } else if s[from] == '.' {
        from
    } else {
        find_point(s, from + 1, to)
    }
}

pub open spec fn exp_mark(s: Seq<char>) -> int {
    find_exp_mark(s, sign_len(s))
}

pub open spec fn point(s: Seq<char>) -> int {
    find_point(s, sign_len(s), exp_mark(s))
}

/// The digits before the decimal point.
pub open spec fn int_part(s: Seq<char>) -> Seq<char> {
    s.subrange(sign_len(s), point(s))
}

/// The digits after the decimal point, up to the exponent.
pub open spec fn frac_part(s: Seq<char>) -> Seq<char> {
    if point(s) < exp_mark(s) {
        s.subrange(point(s) + 1, exp_mark(s))
    } else {
        Seq::<char>::empty()
    }
}

pub open spec fn exp_sign_len(s: Seq<char>) -> int {
    let m = exp_mark(s);
    if m + 1 < s.len() && (s[m + 1] == '+' || s[m + 1] == '-') {
        1
    } else {
        0
    }
}

pub open spec fn exp_negative(s: Seq<char>) -> bool {
    exp_sign_len(s) == 1 && s[exp_mark(s) + 1] == '-'
}

/// The digits of the exponent.
pub open spec fn exp_digits(s: Seq<char>) -> Seq<char> {
    if exp_mark(s) < s.len() {
        s.subrange(exp_mark(s) + 1 + exp_sign_len(s), s.len() as int)
    } else {
        Seq::<char>::empty()
    }
}

/// Whether `s` is a decimal numeral: at least one digit in the integer and fractional parts
/// together, and where an exponent mark stands, at least one digit after it.
pub open spec fn is_numeral(s: Seq<char>) -> bool {
    &&& all_digits(int_part(s))
    &&& all_digits(frac_part(s))
    &&& int_part(s).len() + frac_part(s).len() >= 1
    &&& (exp_mark(s) == s.len() || (exp_digits(s).len() >= 1 && all_digits(exp_digits(s))))
}

/// The value of the written exponent, less the number of fractional digits.
pub open spec fn numeral_exponent(s: Seq<char>) -> int {
    let x = digits_value(exp_digits(s)) as int;
    (if exp_negative(s) {
        -x
    } else {
        x
    }) - frac_part(s).len()
}

/// The shortest form of the numeral's magnitude.
pub open spec fn numeral_shortest(s: Seq<char>) -> (nat, int) {
    strip(digits_value(int_part(s) + frac_part(s)), numeral_exponent(s))
}

/// What reading the text `s` gives.
pub open spec fn read_spec(s: Seq<char>) -> Result<Decimal, NumberError> {
    if !is_numeral(s) {
        Err(NumberError::Malformed)
    } else {
        let (c, e) = numeral_shortest(s);
        if representable(c, e) {
            Ok(decimal_of(sign_len(s) == 1, c, e))
        } else {
            Err(NumberError::OutOfRange)
        }
    }
}

/// The digit string `p` holds a prefix whose value ends in a nonzero digit and exceeds `u64`.
pub open spec fn overflows(p: Seq<char>) -> bool {
    exists|k: int|
        0 <= k <= p.len() && #[trigger] digits_value(p.take(k)) > u64::MAX && digits_value(
            p.take(k),
        ) % 10 != 0
}

proof fn lemma_strip_le(x: nat, e: int)
    requires
        x > 0,
    ensures
        0 < strip(x, e).0 <= x,
    decreases x,
{
    if x % 10 == 0 {
        lemma_strip_le(x / 10, e + 1);
    }
}

/// Digits that follow a prefix ending in a nonzero digit do not shrink the shortest coefficient.
proof fn lemma_strip_grows(p: Seq<char>, rest: Seq<char>, e: int)
    requires
        all_digits(rest),
        digits_value(p) > 0,
        digits_value(p) % 10 != 0,
    ensures
        strip(digits_value(p + rest), e).0 >= digits_value(p),
    decreases rest.len(),
{
    if rest.len() == 0 {
        assert(p + rest =~= p);
    } else {
        let r1 = rest.drop_last();
        let d = rest.last();
        assert(is_digit(rest[rest.len() - 1]));
        assert(all_digits(r1)) by {
            assert forall|i: int| 0 <= i < r1.len() implies is_digit(#[trigger] r1[i]) by {
                assert(r1[i] == rest[i]);
            }
        }
        assert((p + rest).drop_last() =~= p + r1);
        assert((p + rest).last() == d);
        let x = digits_value(p + r1);
        let y = digits_value(p + rest);
        assert(y == x * 10 + char_digit(d));
        lemma_strip_grows(p, r1, e + 1);
        lemma_strip_le_prefix(p, r1);
        if char_digit(d) == 0 {
            assert(y % 10 == 0 && y / 10 == x);
        } else {
            assert(y % 10 != 0);
            lemma_strip_grows(p, r1, e);
            lemma_strip_le(x, e);
        }
    }
}

proof fn lemma_strip_le_prefix(p: Seq<char>, rest: Seq<char>)
    requires
        digits_value(p) > 0,
    ensures
        digits_value(p + rest) >= digits_value(p),
        digits_value(p + rest) > 0,
{
    crate::text::lemma_digits_value_concat(p, rest);
    lemma_pow10_positive(rest.len());
    let a = digits_value(p);
    let b = pow10(rest.len());
    assert(a * b >= a) by (nonlinear_arith)
        requires
            a > 0,
            b >= 1,
    ;
}

/// A digit string with an overflowing prefix has a shortest coefficient beyond `u64`.
proof fn lemma_overflow_shortest(p: Seq<char>, e: int)
    requires
        all_digits(p),
        overflows(p),
    ensures
        strip(digits_value(p), e).0 > u64::MAX,
{
    let k = choose|k: int|
        0 <= k <= p.len() && #[trigger] digits_value(p.take(k)) > u64::MAX && digits_value(
            p.take(k),
        ) % 10 != 0;
    let q = p.take(k);
    let rest = p.skip(k);
    assert(q + rest =~= p);
    assert(all_digits(rest)) by {
        assert forall|i: int| 0 <= i < rest.len() implies is_digit(#[trigger] rest[i]) by {
            assert(rest[i] == p[i + k]);
        }
    }
    lemma_strip_grows(q, rest, e);
}

/// The index of the exponent mark of `v` (see `exp_mark`).
fn exp_mark_of(v: &Vec<char>) -> (r: usize)
    ensures
        r == exp_mark(v@),
        sign_len(v@) <= r <= v.len(),
{
    let n = v.len();
    let start: usize = if n > 0 && v[0] == '-' {
        1
    } else {
        0
    };
    let mut em = start;
    while em < n && v[em] != 'e' && v[em] != 'E'
        invariant
            start == sign_len(v@),
            start <= em <= n == v@.len(),
            find_exp_mark(v@, start as int) == find_exp_mark(v@, em as int),
        decreases n - em,
    {
        em = em + 1;
    }
    em
}

/// The index of the decimal point of `v` (see `point`).
fn point_of(v: &Vec<char>, start: usize, em: usize) -> (r: usize)
    requires
        start == sign_len(v@),
        em == exp_mark(v@),
        start <= em <= v.len(),
    ensures
        r == point(v@),
        start <= r <= em,
{
    let mut pt = start;
    while pt < em && v[pt] != '.'
        invariant
            start <= pt <= em <= v@.len(),
            find_point(v@, start as int, em as int) == find_point(v@, pt as int, em as int),
        decreases em - pt,
    {
        pt = pt + 1;
    }
    pt
}

/// `v[a..b]` followed by `v[c..d]`.
fn two_ranges(v: &Vec<char>, a: usize, b: usize, c: usize, d: usize) -> (r: Vec<char>)
    requires
        a <= b <= v.len(),
        c <= d <= v.len(),
    ensures
        r@ == v@.subrange(a as int, b as int) + v@.subrange(c as int, d as int),
{
    let mut r: Vec<char> = Vec::new();
    let mut i = a;
    while i < b
        invariant
            a <= i <= b <= v.len(),
            r@ == v@.subrange(a as int, i as int),
        decreases b - i,
    {
        r.push(v[i]);
        i = i + 1;
        assert(r@ =~= v@.subrange(a as int, i as int));
    }
    let mut i = c;
    while i < d
        invariant
            c <= i <= d <= v.len(),
            r@ == v@.subrange(a as int, b as int) + v@.subrange(c as int, i as int),
        decreases d - i,
    {
        r.push(v[i]);
        i = i + 1;
        assert(r@ =~= v@.subrange(a as int, b as int) + v@.subrange(c as int, i as int));
    }
    r
}

/// Whether `v[from..to]` holds digits only.
fn digits_only(v: &Vec<char>, from: usize, to: usize) -> (r: bool)
    requires
        from <= to <= v.len(),
    ensures
        r == all_digits(v@.subrange(from as int, to as int)),
{
    let mut i = from;
    while i < to
        invariant
            from <= i <= to <= v.len(),
            all_digits(v@.subrange(from as int, i as int)),
        decreases to - i,
    {
        if !('0' <= v[i] && v[i] <= '9') {
            assert(v@.subrange(from as int, to as int)[i - from] == v@[i as int]);
            return false;
        }
        i = i + 1;
        assert forall|q: int| 0 <= q < i - from implies is_digit(
            #[trigger] v@.subrange(from as int, i as int)[q],
        ) by {
            if q < i - 1 - from {
                assert(v@.subrange(from as int, i as int)[q] == v@.subrange(
                    from as int,
                    i - 1,
                )[q]);
            }
        }
    }
    true
}

/// The value of the digits `v[from..]`, exact below `EXPONENT_CAP`, and at least the cap above it.
fn exponent_value(v: &Vec<char>, from: usize) -> (x: u128)
    requires
        from <= v.len(),
        all_digits(v@.subrange(from as int, v@.len() as int)),
    ensures
        x == digits_value(v@.subrange(from as int, v@.len() as int)) || (x >= EXPONENT_CAP
            && digits_value(v@.subrange(from as int, v@.len() as int)) >= EXPONENT_CAP),
        x < EXPONENT_CAP * 10,
{
    let n = v.len();
    let mut x: u128 = 0;
    let mut j = from;
    while j < n
        invariant
            from <= j <= n == v@.len(),
            all_digits(v@.subrange(from as int, n as int)),
            x == digits_value(v@.subrange(from as int, j as int)) || (x >= EXPONENT_CAP
                && digits_value(v@.subrange(from as int, j as int)) >= EXPONENT_CAP),
            x < EXPONENT_CAP * 10,
        decreases n - j,
    {
        let c = v[j];
        assert(v@.subrange(from as int, n as int)[j - from] == c);
        assert(v@.subrange(from as int, j + 1).drop_last() =~= v@.subrange(from as int, j as int));
        assert(v@.subrange(from as int, j + 1).last() == c);
        if x < EXPONENT_CAP {
            x = x * 10 + ((c as u32) - 48) as u128;
        }
        j = j + 1;
    }
    x
}

/// `c * 10^z`, where it fits a `u64`.
fn scale_by_pow10(c: u64, z: usize) -> (r: Option<u64>)
    requires
        c > 0,
    ensures
        r is Some <==> c * pow10(z as nat) <= u64::MAX,
        r is Some ==> r->Some_0 == c * pow10(z as nat),
{
    let mut scaled: u64 = c;
    let mut t: usize = 0;
    assert(pow10(0) == 1);
    while t < z
        invariant
            0 <= t <= z,
            c > 0,
            scaled == c * pow10(t as nat),
        decreases z - t,
    {
        proof {
            assert(pow10(t as nat + 1) == 10 * pow10(t as nat));
            assert(scaled * 10 == c * pow10(t as nat + 1)) by (nonlinear_arith)
                requires
                    scaled == c * pow10(t as nat),
                    pow10(t as nat + 1) == 10 * pow10(t as nat),
            ;
        }
        if scaled > u64::MAX / 10 {
            proof {
                lemma_pow10_monotonic(t as nat + 1, z as nat);
                let b = pow10(t as nat + 1);
                let d = pow10(z as nat);
                assert(c * b <= c * d) by (nonlinear_arith)
                    requires
                        b <= d,
                ;
            }
            return None;
        }
        scaled = scaled * 10;
        t = t + 1;
    }
    Some(scaled)
}

/// The digits `ds` as `coef * 10^zeros` with no trailing zero in `coef`, or `None` where `coef`
/// would pass `u64::MAX`.
fn shortest_digits(ds: &Vec<char>) -> (r: Option<(u64, usize)>)
    requires
        all_digits(ds@),
    ensures
        r is Some ==> ({
            let (c, z) = r->Some_0;
            &&& digits_value(ds@) == c * pow10(z as nat)
            &&& c == 0 ==> z == 0
            &&& c > 0 ==> c % 10 != 0
        }),
        r is None ==> overflows(ds@),
{
    let mut coef: u64 = 0;
    let mut pending: usize = 0;
    let mut j: usize = 0;
    assert(ds@.take(0) =~= Seq::<char>::empty());
    while j < ds.len()
        invariant
            0 <= j <= ds.len(),
            all_digits(ds@),
            pending <= j,
            digits_value(ds@.take(j as int)) == coef * pow10(pending as nat),
            coef == 0 ==> pending == 0,
            coef > 0 ==> coef % 10 != 0,
        decreases ds.len() - j,
    {
        let ghost before = ds@.take(j as int);
        assert(ds@.take(j + 1).drop_last() =~= before);
        assert(is_digit(ds@[j as int]));
        let d: u64 = ((ds[j] as u32) - 48) as u64;
        let ghost grown = ds@.take(j + 1);
        assert(digits_value(grown) == digits_value(before) * 10 + d);
        proof {
            let p = pow10(pending as nat);
            assert(pow10((pending + 1) as nat) == 10 * p);
            assert(coef * p * 10 == coef * (10 * p)) by (nonlinear_arith);
        }
        if d == 0 {
            if coef > 0 {
                pending = pending + 1;
            }
        } else if coef == 0 {
            coef = d;
            assert(pow10(0) == 1);
        } else {
            let scaled = scale_by_pow10(coef, pending + 1);
            proof {
                lemma_tail_digit(coef as nat, pending as nat + 1, d as nat);
            }
            match scaled {
                Some(sc) if sc <= u64::MAX - d => {
                    coef = sc + d;
                    pending = 0;
                    assert(pow10(0) == 1);
                },
                _ => {
                    assert(digits_value(ds@.take(j + 1)) > u64::MAX);
                    return None;
                },
            }
        }
        j = j + 1;
    }
    assert(ds@.take(ds.len() as int) =~= ds@);
    Some((coef, pending))
}

/// Reads a number of the wire format.
pub fn read_number(s: &str) -> (r: Result<Decimal, NumberError>)
    ensures
        r == read_spec(s@),
        r is Ok ==> r->Ok_0.wf(),
{
    let v = chars_of(s);
    read_chars(&v)
}

/// Reads a number of the wire format from its characters.
pub fn read_chars(v: &Vec<char>) -> (r: Result<Decimal, NumberError>)
    ensures
        r == read_spec(v@),
        r is Ok ==> r->Ok_0.wf(),
{
    let n = v.len();
    let start: usize = if n > 0 && v[0] == '-' {
        1
    } else {
        0
    };
    let em = exp_mark_of(v);
    let pt = point_of(v, start, em);
    let frac_start: usize = if pt < em {
        pt + 1
    } else {
        em
    };
    let stream = two_ranges(v, start, pt, frac_start, em);
    let frac_len: usize = em - frac_start;
    assert(v@.subrange(frac_start as int, em as int) =~= frac_part(v@));
    assert(stream@ =~= int_part(v@) + frac_part(v@));
    let mantissa_ok = stream.len() >= 1 && digits_only(&stream, 0, stream.len());
    assert(stream@.subrange(0, stream@.len() as int) =~= stream@);
    assert(mantissa_ok == (all_digits(int_part(v@)) && all_digits(frac_part(v@)) && int_part(
        v@,
    ).len() + frac_part(v@).len() >= 1)) by {
        let ip = int_part(v@);
        let fp = frac_part(v@);
        if all_digits(ip) && all_digits(fp) {
            assert forall|q: int| 0 <= q < stream@.len() implies is_digit(#[trigger] stream@[q]) by {
                if q < ip.len() {
                    assert(stream@[q] == ip[q]);
                } else {
                    assert(stream@[q] == fp[q - ip.len()]);
                }
            }
        }
        if all_digits(stream@) {
            assert forall|q: int| 0 <= q < ip.len() implies is_digit(#[trigger] ip[q]) by {
                assert(stream@[q] == ip[q]);
            }
            assert forall|q: int| 0 <= q < fp.len() implies is_digit(#[trigger] fp[q]) by {
                assert(stream@[q + ip.len()] == fp[q]);
            }
        }
    }
    let mut exp_neg = false;
    let mut exp_start: usize = n;
    if em < n {
        exp_start = em + 1;
        if exp_start < n && (v[exp_start] == '+' || v[exp_start] == '-') {
            exp_neg = v[exp_start] == '-';
            exp_start = exp_start + 1;
        }
    }
    assert(exp_neg == exp_negative(v@));
    assert(v@.subrange(exp_start as int, n as int) =~= exp_digits(v@));
    let exponent_ok = em == n || (exp_start < n && digits_only(v, exp_start, n));
    if !mantissa_ok || !exponent_ok {
        return Err(NumberError::Malformed);
    }
    assert(is_numeral(v@));
    let x = exponent_value(v, exp_start);
    let shortest = shortest_digits(&stream);
    let ghost e_spec = numeral_exponent(v@);
    match shortest {
        None => {
            proof {
                lemma_overflow_shortest(stream@, e_spec);
            }
            Err(NumberError::OutOfRange)
        },
        Some((coef, pending)) => {
            if coef == 0 {
                proof {
                    lemma_pow10_positive(pending as nat);
                }
                return Ok(Decimal::zero());
            }
            proof {
                lemma_strip_scaled(coef as nat, pending as nat, e_spec);
            }
            let sx: i128 = if exp_neg {
                -(x as i128)
            } else {
                x as i128
            };
            let total: i128 = sx - (frac_len as i128) + (pending as i128);
            assert(total == e_spec + pending || (x >= EXPONENT_CAP && digits_value(exp_digits(v@))
                >= EXPONENT_CAP));
            if total < i32::MIN as i128 || total > i32::MAX as i128 {
                return Err(NumberError::OutOfRange);
            }
            Ok(Decimal { negative: start == 1, coefficient: coef, exponent: total as i32 })
        },
    }
}

/// `c * 10^z + d` ends in the digit `d`.
proof fn lemma_tail_digit(c: nat, z: nat, d: nat)
    requires
        z >= 1,
        1 <= d < 10,
    ensures
        (c * pow10(z) + d) % 10 == d,
        (c * pow10(z) + d) % 10 != 0,
{
    let z1 = (z - 1) as nat;
    assert(pow10(z) == 10 * pow10(z1));
    let m = c * pow10(z1);
    assert(c * pow10(z) == m * 10) by (nonlinear_arith)
        requires
            m == c * pow10(z1),
            pow10(z) == 10 * pow10(z1),
    ;
}

proof fn lemma_find_exp_mark_none(s: Seq<char>, from: int)
    requires
        0 <= from <= s.len(),
        forall|i: int| from <= i < s.len() ==> s[i] != 'e' && s[i] != 'E',
    ensures
        find_exp_mark(s, from) == s.len(),
    decreases s.len() - from,
{
    if from < s.len() {
        lemma_find_exp_mark_none(s, from + 1);
    }
}

proof fn lemma_find_point_at(s: Seq<char>, from: int, at: int, to: int)
    requires
        0 <= from <= at <= to <= s.len(),
        at < to ==> s[at] == '.',
        forall|i: int| from <= i < at ==> s[i] != '.',
    ensures
        find_point(s, from, to) == at,
    decreases at - from,
{
    if from < at {
        lemma_find_point_at(s, from + 1, at, to);
    }
}

/// Reading the canonical text of a well-formed decimal gives that decimal back.
pub proof fn lemma_read_text(d: Decimal)
    requires
        d.wf(),
    ensures
        read_spec(text_of(d)) == Ok::<Decimal, NumberError>(d),
{
    lemma_digits_round_trip(d.coefficient as nat);
    if d.exponent >= 0 {
        lemma_read_text_integer(d);
    } else if digits(d.coefficient as nat).len() > -d.exponent {
        lemma_read_text_point_inside(d);
    } else {
        lemma_read_text_point_before(d);
    }
}

proof fn lemma_read_text_integer(d: Decimal)
    requires
        d.wf(),
        d.exponent >= 0,
    ensures
        read_spec(text_of(d)) == Ok::<Decimal, NumberError>(d),
{
    let t = text_of(d);
    let c = d.coefficient as nat;
    let ds = digits(c);
    lemma_digits_round_trip(c);
    let sl: int = if d.negative {
        1
    } else {
        0
    };
    let sign = if d.negative {
        seq!['-']
    } else {
        Seq::<char>::empty()
    };
    assert(c > 0 ==> c % 10 != 0);
    assert(pow10(0) == 1);
        let z = zeros(d.exponent as nat);
        lemma_zeros_value(d.exponent as nat);
        assert(t == sign + ds + z);
        let body = ds + z;
        assert(t =~= sign + body);
        assert(forall|i: int| 0 <= i < body.len() ==> is_digit(#[trigger] body[i])) by {
            assert forall|i: int| 0 <= i < body.len() implies is_digit(#[trigger] body[i]) by {
                if i < ds.len() {
                    assert(body[i] == ds[i]);
                } else {
                    assert(body[i] == z[i - ds.len()]);
                }
            }
        }
        assert(forall|i: int| sl <= i < t.len() ==> t[i] == body[i - sl]);
        assert(sign_len(t) == sl);
        lemma_find_exp_mark_none(t, sl);
        lemma_find_point_at(t, sl, t.len() as int, t.len() as int);
        assert(int_part(t) =~= body);
        assert(frac_part(t) =~= Seq::<char>::empty());
        assert(exp_digits(t) =~= Seq::<char>::empty());
        assert(int_part(t) + frac_part(t) =~= body);
        lemma_digits_value_concat(ds, z);
        assert(numeral_exponent(t) == 0);
        if c > 0 {
            lemma_strip_scaled(c, d.exponent as nat, 0);
        } else {
            assert(d.exponent == 0);
            assert(pow10(0) == 1);
        }
}

proof fn lemma_read_text_point_inside(d: Decimal)
    requires
        d.wf(),
        d.exponent < 0,
        digits(d.coefficient as nat).len() > -d.exponent,
    ensures
        read_spec(text_of(d)) == Ok::<Decimal, NumberError>(d),
{
    let t = text_of(d);
    let c = d.coefficient as nat;
    let ds = digits(c);
    lemma_digits_round_trip(c);
    let sl: int = if d.negative {
        1
    } else {
        0
    };
    let sign = if d.negative {
        seq!['-']
    } else {
        Seq::<char>::empty()
    };
    assert(c > 0 ==> c % 10 != 0);
    assert(pow10(0) == 1);
    let k: int = -d.exponent;
    let hi = ds.take(ds.len() - k);
    let lo = ds.skip(ds.len() - k);
    assert(t == sign + hi + seq!['.'] + lo);
    let p = sl + hi.len();
    assert(forall|i: int| sl <= i < p ==> t[i] == hi[i - sl]);
    assert(t[p] == '.');
    assert(forall|i: int| p < i < t.len() ==> t[i] == lo[i - p - 1]);
    assert(forall|i: int| 0 <= i < hi.len() ==> hi[i] == ds[i]);
    assert(forall|i: int| 0 <= i < lo.len() ==> lo[i] == ds[i + hi.len()]);
    assert(sign_len(t) == sl);
    assert forall|i: int| sl <= i < t.len() implies t[i] != 'e' && t[i] != 'E' by {
        if i < p {
            assert(is_digit(ds[i - sl]));
        } else if i > p {
            assert(is_digit(ds[i - p - 1 + hi.len()]));
        }
    }
    lemma_find_exp_mark_none(t, sl);
    assert forall|i: int| sl <= i < p implies t[i] != '.' by {
        assert(is_digit(ds[i - sl]));
    }
    lemma_find_point_at(t, sl, p, t.len() as int);
    assert(int_part(t) =~= hi);
    assert(frac_part(t) =~= lo);
    assert(hi + lo =~= ds);
    assert(exp_digits(t) =~= Seq::<char>::empty());
    assert(numeral_exponent(t) == -k);
    assert(all_digits(hi) && all_digits(lo));
    assert(c > 0) by {
        if c == 0 {
            assert(d.exponent == 0);
        }
    }
    lemma_strip_scaled(c, 0, -k);
    assert(c * pow10(0) == c);
}

proof fn lemma_read_text_point_before(d: Decimal)
    requires
        d.wf(),
        d.exponent < 0,
        digits(d.coefficient as nat).len() <= -d.exponent,
    ensures
        read_spec(text_of(d)) == Ok::<Decimal, NumberError>(d),
{
    let t = text_of(d);
    let c = d.coefficient as nat;
    let ds = digits(c);
    lemma_digits_round_trip(c);
    let sl: int = if d.negative {
        1
    } else {
        0
    };
    let sign = if d.negative {
        seq!['-']
    } else {
        Seq::<char>::empty()
    };
    assert(c > 0 ==> c % 10 != 0);
    assert(pow10(0) == 1);
    let k: int = -d.exponent;
    let z = zeros((k - ds.len()) as nat);
    lemma_zeros_value((k - ds.len()) as nat);
    let fr = z + ds;
    assert(t == sign + seq!['0', '.'] + z + ds);
    assert(t =~= sign + seq!['0', '.'] + fr);
    let p = sl + 1;
    assert(t[sl] == '0');
    assert(t[p] == '.');
    assert(forall|i: int| p < i < t.len() ==> t[i] == fr[i - p - 1]);
    assert forall|i: int| 0 <= i < fr.len() implies is_digit(#[trigger] fr[i]) by {
        if i < z.len() {
            assert(fr[i] == z[i]);
        } else {
            assert(fr[i] == ds[i - z.len()]);
        }
    }
    assert(sign_len(t) == sl);
    assert forall|i: int| sl <= i < t.len() implies t[i] != 'e' && t[i] != 'E' by {
        if i > p {
            assert(is_digit(fr[i - p - 1]));
        }
    }
    lemma_find_exp_mark_none(t, sl);
    lemma_find_point_at(t, sl, p, t.len() as int);
    assert(int_part(t) =~= seq!['0']);
    assert(frac_part(t) =~= fr);
    assert(exp_digits(t) =~= Seq::<char>::empty());
    assert(numeral_exponent(t) == -k);
    let lead = seq!['0'] + z;
    assert(int_part(t) + frac_part(t) =~= lead + ds);
    assert(seq!['0'] + z =~= zeros((k - ds.len() + 1) as nat));
    lemma_zeros_value((k - ds.len() + 1) as nat);
    lemma_digits_value_concat(lead, ds);
    assert(c > 0) by {
        if c == 0 {
            assert(d.exponent == 0);
        }
    }
    lemma_strip_scaled(c, 0, -k);
    assert(c * pow10(0) == c);
}

} // verus!
