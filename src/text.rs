//! Characters, decimal digit strings and the few string operations the rest of the crate builds on.
use vstd::prelude::*;

verus! {

/// Ten to the power `n`.
pub open spec fn pow10(n: nat) -> nat
    decreases n,
{
    if n == 0 {
        1
    } else {
        10 * pow10((n - 1) as nat)
    }
}

pub open spec fn is_digit(c: char) -> bool {
    '0' <= c && c <= '9'
}

pub open spec fn all_digits(s: Seq<char>) -> bool {
    forall|i: int| 0 <= i < s.len() ==> is_digit(#[trigger] s[i])
}

/// The character of the decimal digit `d`.
pub open spec fn digit_char(d: nat) -> char {
    ((d + 48) as u8) as char
}

/// The value of a decimal digit character.
pub open spec fn char_digit(c: char) -> nat {
    ((c as u32) - 48) as nat
}

/// The value of a string of decimal digits, most significant first.
pub open spec fn digits_value(s: Seq<char>) -> nat
    decreases s.len(),
{
    if s.len() == 0 {
        0
    } else {
        digits_value(s.drop_last()) * 10 + char_digit(s.last())
    }
}

/// The shortest decimal digits of `n`: `"0"` for zero, else no leading zero.
pub open spec fn digits(n: nat) -> Seq<char>
    decreases n,
{
    if n < 10 {
        seq![digit_char(n)]
    } else {
        digits(n / 10).push(digit_char(n % 10))
    }
}

pub open spec fn zeros(n: nat) -> Seq<char> {
    Seq::new(n, |i: int| '0')
}

/// Whether `s` holds no occurrence of the character `c`.
pub open spec fn lacks(s: Seq<char>, c: char) -> bool {
    forall|i: int| 0 <= i < s.len() ==> s[i] != c
}

pub proof fn lemma_pow10_positive(n: nat)
    ensures
        pow10(n) >= 1,
    decreases n,
{
    if n > 0 {
        lemma_pow10_positive((n - 1) as nat);
    }
}

pub proof fn lemma_pow10_adds(a: nat, b: nat)
    ensures
        pow10(a + b) == pow10(a) * pow10(b),
    decreases b,
{
    if b == 0 {
        assert(pow10(0) == 1);
        assert(a + b == a);
        assert(pow10(a) * 1 == pow10(a));
    } else {
        let b1 = (b - 1) as nat;
        lemma_pow10_adds(a, b1);
        assert((a + b - 1) as nat == a + b1);
        assert(pow10(a + b) == 10 * pow10((a + b - 1) as nat));
        assert(pow10(b) == 10 * pow10(b1));
        let x = pow10(a);
        let y = pow10(b1);
        assert(x * (10 * y) == 10 * (x * y)) by (nonlinear_arith);
    }
}

/// A positive `n` has `l` digits exactly when `10^(l-1) <= n < 10^l`.
pub proof fn lemma_digit_count(n: nat)
    requires
        n > 0,
    ensures
        pow10((digits(n).len() - 1) as nat) <= n < pow10(digits(n).len()),
        n <= u64::MAX ==> digits(n).len() <= 20,
    decreases n,
{
    lemma_digits_round_trip(n);
    if n >= 10 {
        lemma_digit_count(n / 10);
        let l = digits(n / 10).len();
        assert(digits(n).len() == l + 1);
        assert(pow10(l) == 10 * pow10((l - 1) as nat));
    } else {
        assert(digits(n).len() == 1);
        assert(pow10(0) == 1);
    }
    if n <= u64::MAX && digits(n).len() > 20 {
        assert(pow10(20) == 100_000_000_000_000_000_000) by {
            reveal_with_fuel(pow10, 21);
        }
        lemma_pow10_monotonic(20, (digits(n).len() - 1) as nat);
    }
}

pub proof fn lemma_pow10_monotonic(a: nat, b: nat)
    requires
        a <= b,
    ensures
        pow10(a) <= pow10(b),
    decreases b,
{
    if a < b {
        lemma_pow10_monotonic(a, (b - 1) as nat);
        lemma_pow10_positive((b - 1) as nat);
    }
}

pub proof fn lemma_digit_char_round_trip(d: nat)
    requires
        d < 10,
    ensures
        is_digit(digit_char(d)),
        char_digit(digit_char(d)) == d,
{
}

/// Digits put after a string of digits scale its value.
pub proof fn lemma_digits_value_concat(a: Seq<char>, b: Seq<char>)
    ensures
        digits_value(a + b) == digits_value(a) * pow10(b.len()) + digits_value(b),
    decreases b.len(),
{
    if b.len() == 0 {
        assert(a + b =~= a);
        assert(pow10(0) == 1);
        assert(digits_value(a) * 1 == digits_value(a));
    } else {
        let b1 = b.drop_last();
        lemma_digits_value_concat(a, b1);
        assert((a + b).drop_last() =~= a + b1);
        assert((a + b).last() == b.last());
        assert(digits_value(a + b) == digits_value(a + b1) * 10 + char_digit(b.last()));
        assert(digits_value(b) == digits_value(b1) * 10 + char_digit(b.last()));
        assert(pow10(b.len()) == 10 * pow10(b1.len()));
        let x = digits_value(a);
        let p = pow10(b1.len());
        let y = digits_value(b1);
        assert((x * p + y) * 10 == x * (10 * p) + y * 10) by (nonlinear_arith);
    }
}

pub proof fn lemma_zeros_value(n: nat)
    ensures
        digits_value(zeros(n)) == 0,
        all_digits(zeros(n)),
    decreases n,
{
    if n > 0 {
        assert(zeros(n).drop_last() =~= zeros((n - 1) as nat));
        lemma_zeros_value((n - 1) as nat);
    }
}

/// The shortest digits of `n` read back as `n`.
pub proof fn lemma_digits_round_trip(n: nat)
    ensures
        digits_value(digits(n)) == n,
        all_digits(digits(n)),
        digits(n).len() >= 1,
        n > 0 ==> digits(n)[0] != '0',
        n < pow10(digits(n).len()),
    decreases n,
{
    reveal_with_fuel(pow10, 2);
    if n >= 10 {
        let m = n / 10;
        lemma_digits_round_trip(m);
        let ds = digits(n);
        assert(ds == digits(m).push(digit_char(n % 10)));
        assert(ds.drop_last() =~= digits(m));
        assert(ds[0] == digits(m)[0]);
        lemma_digit_char_round_trip(n % 10);
        assert(digits_value(ds) == digits_value(digits(m)) * 10 + char_digit(ds.last()));
        assert(pow10(ds.len()) == 10 * pow10(digits(m).len()));
        assert(all_digits(ds)) by {
            assert forall|i: int| 0 <= i < ds.len() implies is_digit(#[trigger] ds[i]) by {
                if i < ds.len() - 1 {
                    assert(ds[i] == digits(m)[i]);
                }
            }
        }
    } else {
        lemma_digit_char_round_trip(n);
        let ds = digits(n);
        assert(ds.drop_last() =~= Seq::<char>::empty());
        assert(digits_value(ds) == digits_value(ds.drop_last()) * 10 + char_digit(ds.last()));
    }
}

/// Relies on `String::push`: appends one character to the string.
#[verifier::external_body]
pub(crate) fn push_char(s: &mut String, c: char)
    ensures
        final(s)@ == old(s)@.push(c),
{
    s.push(c);
}

/// The characters of `s`, in order.
pub(crate) fn chars_of(s: &str) -> (v: Vec<char>)
    ensures
        v@ == s@,
{
    let mut v: Vec<char> = Vec::new();
    for c in it: s.chars()
        invariant
            v@ == it.seq().take(it.index() as int),
    {
        v.push(c);
    }
    proof {
        assert(v@ =~= s@);
    }
    v
}

/// Appends `v[from..to]` to `s`.
pub(crate) fn push_chars(s: &mut String, v: &Vec<char>, from: usize, to: usize)
    requires
        from <= to <= v.len(),
    ensures
        final(s)@ == old(s)@ + v@.subrange(from as int, to as int),
{
    let mut i = from;
    while i < to
        invariant
            from <= i <= to <= v.len(),
            s@ == old(s)@ + v@.subrange(from as int, i as int),
        decreases to - i,
    {
        push_char(s, v[i]);
        i = i + 1;
        assert(s@ =~= old(s)@ + v@.subrange(from as int, i as int));
    }
}

/// Appends `n` zero digits to `s`.
pub(crate) fn push_zeros(s: &mut String, n: u128)
    ensures
        final(s)@ == old(s)@ + zeros(n as nat),
{
    let mut i: u128 = 0;
    while i < n
        invariant
            i <= n,
            s@ == old(s)@ + zeros(i as nat),
        decreases n - i,
    {
        push_char(s, '0');
        i = i + 1;
        assert(s@ =~= old(s)@ + zeros(i as nat));
    }
}

/// Appends `n` zero digits to `v`.
pub(crate) fn push_zero_chars(v: &mut Vec<char>, n: u128)
    ensures
        final(v)@ == old(v)@ + zeros(n as nat),
{
    let mut i: u128 = 0;
    while i < n
        invariant
            i <= n,
            v@ == old(v)@ + zeros(i as nat),
        decreases n - i,
    {
        v.push('0');
        i = i + 1;
        assert(v@ =~= old(v)@ + zeros(i as nat));
    }
}

/// The shortest digits of `c * 10^z` are those of `c` followed by `z` zeros.
pub proof fn lemma_digits_scaled(c: nat, z: nat)
    requires
        c > 0,
    ensures
        digits(c * pow10(z)) == digits(c) + zeros(z),
    decreases z,
{
    if z == 0 {
        assert(c * 1 == c);
        assert(digits(c) + zeros(0) =~= digits(c));
    } else {
        let z1 = (z - 1) as nat;
        lemma_digits_scaled(c, z1);
        lemma_pow10_positive(z1);
        let m = c * pow10(z1);
        assert(m >= 1) by (nonlinear_arith)
            requires
                c > 0,
                pow10(z1) >= 1,
                m == c * pow10(z1),
        ;
        assert(c * pow10(z) == m * 10) by (nonlinear_arith)
            requires
                m == c * pow10(z1),
                pow10(z) == 10 * pow10(z1),
        ;
        assert((m * 10) / 10 == m && (m * 10) % 10 == 0);
        assert(digits(m * 10) == digits(m).push(digit_char(0)));
        assert(digits(c) + zeros(z) =~= (digits(c) + zeros(z1)).push('0'));
    }
}

/// The character of the decimal digit `d`.
pub(crate) fn digit_to_char(d: u8) -> (c: char)
    requires
        d < 10,
    ensures
        c == digit_char(d as nat),
{
    (d + 48) as char
}

/// The shortest decimal digits of `n`.
pub(crate) fn digit_chars(n: u128) -> (v: Vec<char>)
    ensures
        v@ == digits(n as nat),
    decreases n,
{
    if n < 10 {
        let c = digit_to_char(n as u8);
        let mut v: Vec<char> = Vec::new();
        v.push(c);
        assert(v@ =~= digits(n as nat));
        v
    } else {
        let mut v = digit_chars(n / 10);
        let c = digit_to_char((n % 10) as u8);
        v.push(c);
        v
    }
}

} // verus!
