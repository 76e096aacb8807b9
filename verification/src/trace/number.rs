//! Number literals: unsigned and wrapped signed integers, and decimal times.

use vstd::prelude::*;

verus! {

pub open spec fn is_digit(b: u8) -> bool {
    48 <= b <= 57
}

/// The first position from `p` on that holds no digit.
pub open spec fn digits_end(bytes: Seq<u8>, p: int) -> int
    decreases bytes.len() - p,
{
    if 0 <= p < bytes.len() && is_digit(bytes[p]) {
        digits_end(bytes, p + 1)
    } else {
        p
    }
}

/// The number that a sequence of digits writes.
pub open spec fn digits_value(d: Seq<u8>) -> nat
    decreases d.len(),
{
    if d.len() == 0 {
        0
    } else {
        digits_value(d.drop_last()) * 10 + (d.last() - 48) as nat
    }
}

proof fn lemma_digits_end(bytes: Seq<u8>, p: int)
    requires
        0 <= p <= bytes.len(),
    ensures
        p <= digits_end(bytes, p) <= bytes.len(),
        forall|i: int| p <= i < digits_end(bytes, p) ==> is_digit(#[trigger] bytes[i]),
    decreases bytes.len() - p,
{
    if p < bytes.len() && is_digit(bytes[p]) {
        lemma_digits_end(bytes, p + 1);
    }
}

fn skip_digits(bytes: &[u8], p: usize) -> (r: usize)
    requires
        p <= bytes@.len(),
    ensures
        r == digits_end(bytes@, p as int),
        p <= r <= bytes@.len(),
        forall|i: int| p <= i < r ==> is_digit(#[trigger] bytes@[i]),
{
    let mut i: usize = p;
    while i < bytes.len() && bytes[i] >= 48 && bytes[i] <= 57
        invariant
            p <= i <= bytes@.len(),
            digits_end(bytes@, p as int) == digits_end(bytes@, i as int),
            forall|j: int| p <= j < i ==> is_digit(#[trigger] bytes@[j]),
        decreases bytes@.len() - i,
    {
        i = i + 1;
    }
    i
}

/// An unsigned integer at `p` and the position after it: digits only, no sign,
/// fraction or exponent behind them, at most `u64::MAX`.
pub open spec fn u64_at(bytes: Seq<u8>, p: int) -> Option<(u64, int)> {
    let e = digits_end(bytes, p);
    let v = digits_value(bytes.subrange(p, e));
    if p < e && v <= u64::MAX && !(e < bytes.len() && ends_no_integer(bytes[e])) {
        Some((v as u64, e))
    } else {
        None
    }
}

/// A byte that makes the digits before it part of something else than an
/// unsigned integer.
pub open spec fn ends_no_integer(b: u8) -> bool {
    b == 46 || b == 101 || b == 69 || b == 45 || b == 43
}

proof fn lemma_digits_value_mono(d: Seq<u8>, k: int)
    requires
        0 <= k <= d.len(),
    ensures
        digits_value(d.take(k)) <= digits_value(d),
    decreases d.len() - k,
{
    if k < d.len() {
        lemma_digits_value_mono(d, k + 1);
        assert(d.take(k + 1).drop_last() =~= d.take(k));
    } else {
        assert(d.take(k) =~= d);
    }
}

/// Unsigned integer value; an error on overflow, on no digits, and where a
/// fraction, exponent or sign follows.
pub fn parse_num_u64(bytes: &[u8], p: usize) -> (r: Result<(u64, usize), ()>)
    requires
        p <= bytes@.len(),
    ensures
        match r {
            Ok((v, e)) => u64_at(bytes@, p as int) == Some((v, e as int)) && p < e <= bytes@.len(),
            Err(_) => u64_at(bytes@, p as int) is None,
        },
{
    let mut i: usize = p;
    let mut acc: u64 = 0;
    let ghost end = digits_end(bytes@, p as int);
    let ghost all = bytes@.subrange(p as int, end);
    proof {
        lemma_digits_end(bytes@, p as int);
        assert(all.take(0) =~= Seq::<u8>::empty());
    }
    while i < bytes.len() && bytes[i] >= 48 && bytes[i] <= 57
        invariant
            p <= i <= end <= bytes@.len(),
            end == digits_end(bytes@, p as int),
            end == digits_end(bytes@, i as int),
            all == bytes@.subrange(p as int, end),
            acc == digits_value(all.take(i - p)),
        decreases bytes@.len() - i,
    {
        let d: u64 = (bytes[i] - 48) as u64;
        proof {
            lemma_digits_end(bytes@, i + 1);
            assert(all.take(i + 1 - p).drop_last() =~= all.take(i - p));
            assert(all.take(i + 1 - p).last() == bytes@[i as int]);
            lemma_digits_value_mono(all, i + 1 - p);
        }
        if acc > (u64::MAX - d) / 10 {
            return Err(());
        }
        acc = acc * 10 + d;
        i = i + 1;
    }
    assert(all.take(i - p) =~= all);
    if i == p {
        return Err(());
    }
    if i < bytes.len() && (bytes[i] == 46 || bytes[i] == 101 || bytes[i] == 69 || bytes[i] == 45
        || bytes[i] == 43) {
        return Err(());
    }
    Ok((acc, i))
}

/// `-v` in the arithmetic modulo 2^64.
pub open spec fn wrapped_neg(v: u64) -> u64 {
    if v == 0 {
        0
    } else {
        (u64::MAX - v + 1) as u64
    }
}

/// A signed integer at `p`, wrapped to an unsigned one, and the position after
/// it.
pub open spec fn i64_at(bytes: Seq<u8>, p: int) -> Option<(u64, int)> {
    if 0 <= p < bytes.len() && bytes[p] == 45 {
        match u64_at(bytes, p + 1) {
            Some((v, e)) => Some((wrapped_neg(v), e)),
            None => None,
        }
    } else {
        u64_at(bytes, p)
    }
}

/// Signed integer value: an optional minus, then digits. Thread and process
/// ids can be negative; they wrap.
pub fn parse_num_i64(bytes: &[u8], p: usize) -> (r: Result<(u64, usize), ()>)
    requires
        p <= bytes@.len(),
    ensures
        match r {
            Ok((v, e)) => i64_at(bytes@, p as int) == Some((v, e as int)) && p < e <= bytes@.len(),
            Err(_) => i64_at(bytes@, p as int) is None,
        },
{
    if p < bytes.len() && bytes[p] == 45 {
        match parse_num_u64(bytes, p + 1) {
            Ok((v, e)) => {
                let w: u64 = if v == 0 {
                    0
                } else {
                    u64::MAX - v + 1
                };
                Ok((w, e))
            },
            Err(_) => Err(()),
        }
    } else {
        parse_num_u64(bytes, p)
    }
}

/// A decimal literal: sign, digits without the point, how many of them stand
/// before it, and the power of ten.
pub struct Decimal {
    pub neg: bool,
    pub digits: Seq<u8>,
    pub whole: int,
    pub exp: int,
}

pub open spec fn pow10(k: nat) -> nat
    decreases k,
{
    if k == 0 {
        1
    } else {
        10 * pow10((k - 1) as nat)
    }
}

/// `0.d1 d2 d3 .. * 10^q`, rounded to the nearest integer, halves up.
pub open spec fn scaled(d: Seq<u8>, q: int) -> nat {
    if q < 0 {
        0
    } else if q < d.len() {
        digits_value(d.take(q)) + if d[q] >= 53 {
            1nat
        } else {
            0nat
        }
    } else {
        digits_value(d) * pow10((q - d.len()) as nat)
    }
}

/// The largest time, in nanoseconds.
pub const MAX_TICKS: i64 = 0x7fff_ffff_ffff_ffff;

/// The time in nanoseconds that a decimal number of microseconds gives,
/// rounded to the nearest and held within the range of `i64`.
pub open spec fn ticks_of(d: Decimal) -> int {
    let m = scaled(d.digits, d.whole + d.exp + 3);
    let held = if m <= MAX_TICKS {
        m as int
    } else {
        MAX_TICKS as int
    };
    if d.neg {
        -held
    } else {
        held
    }
}

/// A byte of a number literal.
pub open spec fn is_number_byte(b: u8) -> bool {
    is_digit(b) || ends_no_integer(b)
}

/// The first position from `p` on that holds no byte of a number literal.
pub open spec fn number_end(bytes: Seq<u8>, p: int) -> int
    decreases bytes.len() - p,
{
    if 0 <= p < bytes.len() && is_number_byte(bytes[p]) {
        number_end(bytes, p + 1)
    } else {
        p
    }
}

pub open spec fn is_sign(b: u8) -> bool {
    b == 45 || b == 43
}

/// The exponent part of a literal from `f` to `e`: nothing, or `e`, an
/// optional sign and digits.
pub open spec fn exponent(bytes: Seq<u8>, f: int, e: int) -> Option<int> {
    if f == e {
        Some(0)
    } else if bytes[f] == 101 || bytes[f] == 69 {
        let x = if f + 1 < e && is_sign(bytes[f + 1]) {
            f + 2
        } else {
            f + 1
        };
        if x < e && digits_end(bytes, x) == e {
            let v = digits_value(bytes.subrange(x, e)) as int;
            Some(
                if bytes[f + 1] == 45 {
                    -v
                } else {
                    v
                },
            )
        } else {
            None
        }
    } else {
        None
    }
}

/// The decimal literal that fills `[p, e)`: an optional sign, digits with an
/// optional point, at least one digit in all, and an optional exponent.
pub open spec fn decimal(bytes: Seq<u8>, p: int, e: int) -> Option<Decimal> {
    let s = if p < e && is_sign(bytes[p]) {
        p + 1
    } else {
        p
    };
    let i = digits_end(bytes, s);
    let point = i < e && bytes[i] == 46;
    let f = if point {
        digits_end(bytes, i + 1)
    } else {
        i
    };
    let frac = if point {
        bytes.subrange(i + 1, f)
    } else {
        Seq::<u8>::empty()
    };
    let digits = bytes.subrange(s, i) + frac;
    match exponent(bytes, f, e) {
        Some(x) => if digits.len() > 0 {
            Some(Decimal { neg: p < e && bytes[p] == 45, digits, whole: i - s, exp: x })
        } else {
            None
        },
        None => None,
    }
}

/// A number at `p` and the position after it. An integer literal ends where
/// its digits end; any other literal fills the run of number bytes.
pub open spec fn number_at(bytes: Seq<u8>, p: int) -> Option<(Decimal, int)> {
    let neg = p < bytes.len() && bytes[p] == 45;
    let s = if neg {
        p + 1
    } else {
        p
    };
    let i = digits_end(bytes, s);
    let digits = bytes.subrange(s, i);
    if s < i && !(i < bytes.len() && (bytes[i] == 46 || bytes[i] == 101 || bytes[i] == 69))
        && digits_value(digits) <= u64::MAX {
        Some((Decimal { neg, digits, whole: i - s, exp: 0 }, i))
    } else {
        let e = number_end(bytes, p);
        match decimal(bytes, p, e) {
            Some(d) => Some((d, e)),
            None => None,
        }
    }
}

pub open spec fn min_nat(a: nat, b: nat) -> nat {
    if a <= b {
        a
    } else {
        b
    }
}

/// One more than the largest time: where sums of digits stop growing.
const CAP: u64 = 0x8000_0000_0000_0000;

proof fn lemma_pow10_pos(k: nat)
    ensures
        pow10(k) >= 1,
    decreases k,
{
    if k > 0 {
        lemma_pow10_pos((k - 1) as nat);
    }
}

proof fn lemma_pow10_mono(a: nat, b: nat)
    requires
        a <= b,
    ensures
        pow10(a) <= pow10(b),
    decreases b,
{
    if a < b {
        lemma_pow10_mono(a, (b - 1) as nat);
        lemma_pow10_pos((b - 1) as nat);
    }
}

proof fn lemma_mul_mono(v: nat, a: nat, b: nat)
    requires
        a <= b,
    ensures
        v * a <= v * b,
{
    assert(v * a <= v * b) by (nonlinear_arith)
        requires
            a <= b,
    ;
}

/// Past nineteen places behind the digits, how many more there are makes no
/// difference below the cap.
proof fn lemma_scaled_far(d: Seq<u8>, a: int, b: int)
    requires
        d.len() + 19 <= a,
        d.len() + 19 <= b,
    ensures
        min_nat(scaled(d, a), CAP as nat) == min_nat(scaled(d, b), CAP as nat),
{
    let v = digits_value(d);
    let pa = pow10((a - d.len()) as nat);
    let pb = pow10((b - d.len()) as nat);
    lemma_pow10_mono(19, (a - d.len()) as nat);
    lemma_pow10_mono(19, (b - d.len()) as nat);
    assert(pow10(19) >= CAP) by {
        reveal_with_fuel(pow10, 20);
    }
    if v == 0 {
        assert(v * pa == 0) by (nonlinear_arith)
            requires
                v == 0,
        ;
        assert(v * pb == 0) by (nonlinear_arith)
            requires
                v == 0,
        ;
    } else {
        assert(v * pa >= pa) by (nonlinear_arith)
            requires
                v >= 1,
        ;
        assert(v * pb >= pb) by (nonlinear_arith)
            requires
                v >= 1,
        ;
    }
}

/// `scaled` of the digits in `[s, i)` and `[g, f)`, up to the cap.
fn scale(bytes: &[u8], s: usize, i: usize, g: usize, f: usize, q: i128) -> (r: u64)
    requires
        s <= i <= bytes@.len(),
        g <= f <= bytes@.len(),
        i - s + f - g <= usize::MAX,
        forall|j: int| s <= j < i ==> is_digit(#[trigger] bytes@[j]),
        forall|j: int| g <= j < f ==> is_digit(#[trigger] bytes@[j]),
    ensures
        r == min_nat(
            scaled(bytes@.subrange(s as int, i as int) + bytes@.subrange(g as int, f as int), q as int),
            CAP as nat,
        ),
{
    let ghost d = bytes@.subrange(s as int, i as int) + bytes@.subrange(g as int, f as int);
    let n: usize = (i - s) + (f - g);
    if q < 0 {
        return 0;
    }
    let mut acc: u64 = 0;
    let mut k: usize = 0;
    assert(d.take(0) =~= Seq::<u8>::empty());
    while k < n && (k as i128) < q
        invariant
            s <= i <= bytes@.len(),
            g <= f <= bytes@.len(),
            d == bytes@.subrange(s as int, i as int) + bytes@.subrange(g as int, f as int),
            n == d.len(),
            forall|j: int| 0 <= j < n ==> is_digit(#[trigger] d[j]),
            k <= n,
            k <= q,
            acc == min_nat(digits_value(d.take(k as int)), CAP as nat),
        decreases n - k,
    {
        let b: u8 = if k < i - s {
            bytes[s + k]
        } else {
            bytes[g + (k - (i - s))]
        };
        assert(b == d[k as int]);
        assert(d.take(k + 1).drop_last() =~= d.take(k as int));
        assert(d.take(k + 1).last() == b);
        let digit: u64 = (b - 48) as u64;
        if acc > (CAP - digit) / 10 {
            acc = CAP;
        } else {
            acc = acc * 10 + digit;
        }
        k = k + 1;
    }
    if (k as i128) == q && k < n {
        let b: u8 = if k < i - s {
            bytes[s + k]
        } else {
            bytes[g + (k - (i - s))]
        };
        assert(b == d[k as int]);
        if b >= 53 && acc < CAP {
            acc = acc + 1;
        }
        return acc;
    }
    assert(d.take(n as int) =~= d);
    let mut m: i128 = n as i128;
    let ghost v = digits_value(d);
    assert(v * pow10(0) == v) by (nonlinear_arith)
        requires
            pow10(0) == 1,
    ;
    while m < q && acc != 0 && acc < CAP
        invariant
            n <= m <= q,
            acc <= CAP,
            acc == min_nat(v * pow10((m - n) as nat), CAP as nat),
        decreases q - m,
    {
        assert(v * pow10((m + 1 - n) as nat) == 10 * (v * pow10((m - n) as nat))) by {
            assert(pow10((m + 1 - n) as nat) == 10 * pow10((m - n) as nat));
            let a = pow10((m - n) as nat);
            assert(v * (10 * a) == 10 * (v * a)) by (nonlinear_arith);
        }
        if acc > CAP / 10 {
            acc = CAP;
        } else {
            acc = acc * 10;
        }
        m = m + 1;
    }
    proof {
        let a = pow10((m - n) as nat);
        let b = pow10((q - n) as nat);
        lemma_pow10_mono((m - n) as nat, (q - n) as nat);
        lemma_pow10_pos((m - n) as nat);
        lemma_mul_mono(v, a, b);
        if acc == 0 {
            assert(v == 0) by (nonlinear_arith)
                requires
                    v * a == 0,
                    a >= 1,
            ;
            assert(v * b == 0) by (nonlinear_arith)
                requires
                    v == 0,
            ;
        }
    }
    acc
}

/// The time that a sign and a capped magnitude give.
fn held(neg: bool, m: u64) -> (r: i64)
    ensures
        r == if neg {
            -min_nat(m as nat, MAX_TICKS as nat)
        } else {
            min_nat(m as nat, MAX_TICKS as nat) as int
        },
{
    let h: i64 = if m <= 0x7fff_ffff_ffff_ffff {
        m as i64
    } else {
        MAX_TICKS
    };
    if neg {
        -h
    } else {
        h
    }
}

/// Where the bytes of a number literal end.
pub(crate) fn skip_number(bytes: &[u8], p: usize) -> (r: usize)
    requires
        p <= bytes@.len(),
    ensures
        r == number_end(bytes@, p as int),
        p <= r <= bytes@.len(),
{
    let mut i: usize = p;
    while i < bytes.len() && (bytes[i] >= 48 && bytes[i] <= 57 || bytes[i] == 46 || bytes[i] == 101
        || bytes[i] == 69 || bytes[i] == 45 || bytes[i] == 43)
        invariant
            p <= i <= bytes@.len(),
            number_end(bytes@, p as int) == number_end(bytes@, i as int),
        decreases bytes@.len() - i,
    {
        i = i + 1;
    }
    i
}

proof fn lemma_number_end(bytes: Seq<u8>, p: int, j: int)
    requires
        0 <= p <= j <= bytes.len(),
        forall|i: int| p <= i < j ==> is_number_byte(#[trigger] bytes[i]),
    ensures
        number_end(bytes, p) == number_end(bytes, j),
        j <= number_end(bytes, p) <= bytes.len(),
    decreases bytes.len() - p,
{
    if p < j {
        lemma_number_end(bytes, p + 1, j);
    } else if p < bytes.len() && is_number_byte(bytes[p]) {
        lemma_number_end(bytes, p + 1, p + 1);
    }
}

/// Exponents are held at this magnitude, beyond the length of any literal.
const EXP_CAP: i128 = 1_000_000_000_000_000_000_000_000;

/// The exponent that fills `[f, e)`, up to the cap.
fn parse_exponent(bytes: &[u8], f: usize, e: usize) -> (r: Result<i128, ()>)
    requires
        f <= e <= bytes@.len(),
    ensures
        match r {
            Ok(x) => match exponent(bytes@, f as int, e as int) {
                Some(y) => if -EXP_CAP < y < EXP_CAP {
                    x == y
                } else if y > 0 {
                    x == EXP_CAP
                } else {
                    x == -EXP_CAP
                },
                None => false,
            },
            Err(_) => exponent(bytes@, f as int, e as int) is None,
        },
{
    if f == e {
        return Ok(0);
    }
    if bytes[f] != 101 && bytes[f] != 69 {
        return Err(());
    }
    let signed = e - f > 1 && (bytes[f + 1] == 45 || bytes[f + 1] == 43);
    let x: usize = if signed {
        f + 2
    } else {
        f + 1
    };
    if x >= e {
        return Err(());
    }
    let y = skip_digits(bytes, x);
    if y != e {
        return Err(());
    }
    let ghost all = bytes@.subrange(x as int, e as int);
    let mut acc: i128 = 0;
    let mut k: usize = x;
    assert(all.take(0) =~= Seq::<u8>::empty());
    while k < e
        invariant
            x <= k <= e <= bytes@.len(),
            all == bytes@.subrange(x as int, e as int),
            forall|i: int| x <= i < e ==> is_digit(#[trigger] bytes@[i]),
            acc == min_nat(digits_value(all.take(k - x)), EXP_CAP as nat),
        decreases e - k,
    {
        assert(all.take(k + 1 - x).drop_last() =~= all.take(k - x));
        assert(all.take(k + 1 - x).last() == bytes@[k as int]);
        acc = acc * 10 + (bytes[k] - 48) as i128;
        if acc > EXP_CAP {
            acc = EXP_CAP;
        }
        k = k + 1;
    }
    assert(all.take(e - x) =~= all);
    if bytes[f + 1] == 45 {
        Ok(-acc)
    } else {
        Ok(acc)
    }
}

/// A number at `p`, read as microseconds and given in nanoseconds. Integer
/// literals are the common form; other forms fill the run of number bytes.
pub fn parse_num_ticks(bytes: &[u8], p: usize) -> (r: Result<(i64, usize), ()>)
    requires
        p <= bytes@.len(),
    ensures
        match r {
            Ok((t, e)) => p < e <= bytes@.len() && match number_at(bytes@, p as int) {
                Some((d, end)) => e == end && t == ticks_of(d),
                None => false,
            },
            Err(_) => number_at(bytes@, p as int) is None,
        },
{
    let n = bytes.len();
    let neg = p < n && bytes[p] == 45;
    let s: usize = if neg {
        p + 1
    } else {
        p
    };
    let i = skip_digits(bytes, s);
    if i > s && !(i < n && (bytes[i] == 46 || bytes[i] == 101 || bytes[i] == 69)) {
        let ghost digits = bytes@.subrange(s as int, i as int);
        // The digits may still stand for more than a u64 holds.
        if fits_u64(bytes, s, i) {
            let m = scale(bytes, s, i, i, i, (i - s) as i128 + 3);
            assert(digits + bytes@.subrange(i as int, i as int) =~= digits);
            return Ok((held(neg, m), i));
        }
    }
    let e = skip_number(bytes, p);
    match parse_decimal(bytes, p, e) {
        Ok(t) => Ok((t, e)),
        Err(_) => Err(()),
    }
}

/// The time that the decimal literal filling `[p, e)` gives.
pub(crate) fn parse_decimal(bytes: &[u8], p: usize, e: usize) -> (r: Result<i64, ()>)
    requires
        p <= e <= bytes@.len(),
        e == number_end(bytes@, p as int),
    ensures
        match r {
            Ok(t) => p < e && match decimal(bytes@, p as int, e as int) {
                Some(d) => t == ticks_of(d),
                None => false,
            },
            Err(_) => decimal(bytes@, p as int, e as int) is None,
        },
{
    let s: usize = if p < e && (bytes[p] == 45 || bytes[p] == 43) {
        p + 1
    } else {
        p
    };
    let i = skip_digits(bytes, s);
    proof {
        lemma_number_end(bytes@, p as int, i as int);
    }
    let point = i < e && bytes[i] == 46;
    let g: usize = if point {
        i + 1
    } else {
        i
    };
    let f: usize = if point {
        skip_digits(bytes, g)
    } else {
        i
    };
    proof {
        lemma_number_end(bytes@, p as int, f as int);
    }
    let x: i128 = match parse_exponent(bytes, f, e) {
        Ok(x) => x,
        Err(_) => {
            return Err(());
        },
    };
    if i == s && g == f {
        return Err(());
    }
    let ghost d = decimal(bytes@, p as int, e as int)->0;
    assert(bytes@.subrange(s as int, i as int) + bytes@.subrange(g as int, f as int) =~= d.digits);
    Ok(decimal_ticks(bytes, s, i, g, f, x, p < e && bytes[p] == 45, Ghost(d)))
}

/// The time that a decimal literal gives whose digits stand in `[s, i)` and
/// `[g, f)` and whose exponent, up to the cap, is `x`.
fn decimal_ticks(
    bytes: &[u8],
    s: usize,
    i: usize,
    g: usize,
    f: usize,
    x: i128,
    neg: bool,
    Ghost(d): Ghost<Decimal>,
) -> (r: i64)
    requires
        s <= i <= g <= f <= bytes@.len(),
        forall|j: int| s <= j < i ==> is_digit(#[trigger] bytes@[j]),
        forall|j: int| g <= j < f ==> is_digit(#[trigger] bytes@[j]),
        d.digits == bytes@.subrange(s as int, i as int) + bytes@.subrange(g as int, f as int),
        d.neg == neg,
        d.whole == i - s,
        if -EXP_CAP < d.exp < EXP_CAP {
            x == d.exp
        } else if d.exp > 0 {
            x == EXP_CAP
        } else {
            x == -EXP_CAP
        },
    ensures
        r == ticks_of(d),
{
    let q: i128 = (i - s) as i128 + x + 3;
    let m = scale(bytes, s, i, g, f, q);
    proof {
        let true_q = d.whole + d.exp + 3;
        if x == EXP_CAP {
            lemma_scaled_far(d.digits, q as int, true_q);
        }
        assert(min_nat(scaled(d.digits, true_q), CAP as nat) == m);
    }
    held(neg, m)
}

/// The digits in `[s, i)` write at most `u64::MAX`.
fn fits_u64(bytes: &[u8], s: usize, i: usize) -> (r: bool)
    requires
        s <= i <= bytes@.len(),
        forall|j: int| s <= j < i ==> is_digit(#[trigger] bytes@[j]),
    ensures
        r == (digits_value(bytes@.subrange(s as int, i as int)) <= u64::MAX),
{
    let ghost all = bytes@.subrange(s as int, i as int);
    let mut acc: u64 = 0;
    let mut k: usize = s;
    assert(all.take(0) =~= Seq::<u8>::empty());
    while k < i
        invariant
            s <= k <= i <= bytes@.len(),
            all == bytes@.subrange(s as int, i as int),
            forall|j: int| s <= j < i ==> is_digit(#[trigger] bytes@[j]),
            acc == digits_value(all.take(k - s)),
        decreases i - k,
    {
        let d: u64 = (bytes[k] - 48) as u64;
        proof {
            assert(all.take(k + 1 - s).drop_last() =~= all.take(k - s));
            assert(all.take(k + 1 - s).last() == bytes@[k as int]);
            lemma_digits_value_mono(all, k + 1 - s);
        }
        if acc > (u64::MAX - d) / 10 {
            return false;
        }
        acc = acc * 10 + d;
        k = k + 1;
    }
    assert(all.take(i - s) =~= all);
    true
}

} // verus!
