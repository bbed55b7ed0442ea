use vstd::prelude::*;

use crate::duration::{Duration, MAX_NANOS, NANOS_PER_SEC};
use crate::overflow::{overflows_f64, underflows_f64, overflows, underflows, lemma_zero_fits};
use crate::text::{trim, find_char, chars_of, trim_bounds, find_in};

verus! {

/// Whether `c` is an ASCII decimal digit.
pub open spec fn is_digit(c: char) -> bool {
    '0' <= c && c <= '9'
}

/// The value of the ASCII digit `c`.
pub open spec fn digit_val(c: char) -> nat {
    (c as int - '0' as int) as nat
}

/// The value of a string of decimal digits.
pub open spec fn digits_value(d: Seq<char>) -> nat
    decreases d.len(),
{
    if d.len() == 0 {
        0
    } else {
        digits_value(d.drop_last()) * 10 + digit_val(d.last())
    }
}

/// Ten to the power `e`.
pub open spec fn pow10(e: nat) -> nat
    decreases e,
{
    if e == 0 {
        1
    } else {
        10 * pow10((e - 1) as nat)
    }
}

/// The length of the run of ASCII digits at the start of `s`.
pub open spec fn digit_run(s: Seq<char>) -> nat
    decreases s.len(),
{
    if s.len() > 0 && is_digit(s[0]) {
        1 + digit_run(s.drop_first())
    } else {
        0
    }
}

/// The value of `u64::from_str` on `s`: an optional `+`, then one or more
/// digits, of value at most `u64::MAX`.
pub open spec fn u64_value(s: Seq<char>) -> Option<nat> {
    let d = if s.len() > 0 && s[0] == '+' {
        s.drop_first()
    } else {
        s
    };
    if d.len() > 0 && digit_run(d) == d.len() && digits_value(d) <= u64::MAX {
        Some(digits_value(d))
    } else {
        None
    }
}

/// A decimal number as `f64::from_str` reads it:
/// `Sign? (Digit+ | Digit+ '.' Digit* | Digit* '.' Digit+) (('e'|'E') Sign? Digit+)?`.
pub struct FloatParts {
    pub negative: bool,
    /// The digits before and after the point, in order.
    pub digits: Seq<char>,
    /// How many of `digits` follow the point.
    pub frac_len: nat,
    /// The decimal exponent.
    pub exp: int,
}

/// `s` without a leading sign, and whether the sign was `-`.
pub open spec fn split_sign(s: Seq<char>) -> (bool, Seq<char>) {
    if s.len() > 0 && (s[0] == '+' || s[0] == '-') {
        (s[0] == '-', s.drop_first())
    } else {
        (false, s)
    }
}

/// The parts of a decimal number; `None` where `s` is not one. (The words
/// `inf`, `infinity` and `nan`, which `f64::from_str` also reads, stand for
/// no finite number and are `None` here.)
pub open spec fn float_parts(s: Seq<char>) -> Option<FloatParts> {
    let (negative, r) = split_sign(s);
    let p = digit_run(r);
    let after_int = r.skip(p as int);
    let has_dot = after_int.len() > 0 && after_int[0] == '.';
    let after_dot = if has_dot {
        after_int.drop_first()
    } else {
        after_int
    };
    let q = if has_dot {
        digit_run(after_dot)
    } else {
        0
    };
    let rest = after_dot.skip(q as int);
    let digits = r.take(p as int) + after_dot.take(q as int);
    if p + q == 0 {
        None
    } else if rest.len() == 0 {
        Some(FloatParts { negative, digits, frac_len: q, exp: 0 })
    } else if rest[0] == 'e' || rest[0] == 'E' {
        let (eneg, ed) = split_sign(rest.drop_first());
        if ed.len() > 0 && digit_run(ed) == ed.len() {
            let e = digits_value(ed) as int;
            Some(FloatParts { negative, digits, frac_len: q, exp: if eneg { -e } else { e } })
        } else {
            None
        }
    } else {
        None
    }
}

/// `a / b` rounded to the nearest integer, halves rounded up.
pub open spec fn round_div(a: nat, b: nat) -> nat {
    ((2 * a + b) / (2 * b)) as nat
}

/// `a / b` rounded to the nearest integer, halves rounded to the even one.
pub open spec fn round_even(a: nat, b: nat) -> nat {
    let q = a / b;
    let r = a % b;
    if 2 * r > b || (2 * r == b && q % 2 == 1) {
        (q + 1) as nat
    } else {
        q
    }
}

/// The number `digits * 10^shift` rounded to a whole number, halves to even.
pub open spec fn scaled_value(digits: Seq<char>, shift: int) -> nat {
    if shift >= 0 {
        digits_value(digits) * pow10(shift as nat)
    } else {
        round_even(digits_value(digits), pow10((-shift) as nat))
    }
}

/// The nanoseconds in the seconds that `s` writes, rounded to the nearest
/// nanosecond (halves to even); `None` where `s` is no decimal number as
/// `f64::from_str` reads one, a negative one (of which only those that it
/// reads as zero are taken), or one that it reads as infinity. The number is
/// taken exactly as written, not first rounded to the nearest `f64`: the two
/// readings differ by up to half an `f64` step of the number (2^-53 of it,
/// relatively), which is less than a nanosecond below about 10^7 seconds and
/// grows with the number beyond.
pub open spec fn seconds_nanos(s: Seq<char>) -> Option<nat> {
    match float_parts(s) {
        Some(f) => if (f.negative && !underflows_f64(f.digits, f.exp - f.frac_len)) || overflows_f64(
            f.digits,
            f.exp - f.frac_len,
        ) {
            None
        } else {
            Some(scaled_value(f.digits, f.exp - f.frac_len + 9))
        },
        None => None,
    }
}

/// The nanoseconds a timestamp stands for: after trimming, either
/// `minutes:seconds` or `seconds`. `None` where it is no timestamp; the value
/// may exceed what a `Duration` holds. Minutes and seconds are added exactly;
/// added in `f64`, the total would be rounded to 53 significant bits, which
/// moves it by more than a nanosecond once it passes about 10^7 seconds
/// (`1000000000000000:00.5` is 6*10^16 s and half a second exactly, and
/// 6*10^16 s in `f64`).
pub open spec fn timestamp_nanos(text: Seq<char>) -> Option<nat> {
    let t = trim(text);
    if t.len() == 0 {
        None
    } else {
        match find_char(t, ':') {
            Some(i) => match (u64_value(t.take(i)), seconds_nanos(t.skip(i + 1))) {
                (Some(m), Some(sec)) => Some((m * 60 * NANOS_PER_SEC + sec) as nat),
                _ => None,
            },
            None => seconds_nanos(t),
        }
    }
}

/// Whether the timestamp in `text`, if it is one, fits in a `Duration`.
pub open spec fn timestamp_fits(text: Seq<char>) -> bool {
    match timestamp_nanos(text) {
        Some(v) => v <= MAX_NANOS,
        None => true,
    }
}

/// What reading a timestamp gives.
pub enum StampRead {
    /// No timestamp.
    Invalid,
    /// A timestamp of this many nanoseconds.
    Nanos(u128),
    /// A timestamp longer than the longest `Duration`.
    TooLarge,
}

/// Whether `r` reports `v`.
pub open spec fn reports(r: StampRead, v: Option<nat>) -> bool {
    match r {
        StampRead::Invalid => v is None,
        StampRead::Nanos(n) => v == Some(n as nat) && n <= MAX_NANOS,
        StampRead::TooLarge => v matches Some(x) && x > MAX_NANOS,
    }
}

// ---------------------------------------------------------------------------
// Facts about decimal digits.

pub(crate) proof fn lemma_pow10_positive(e: nat)
    ensures
        pow10(e) >= 1,
    decreases e,
{
    if e > 0 {
        lemma_pow10_positive((e - 1) as nat);
    }
}

pub(crate) proof fn lemma_pow10_add(a: nat, b: nat)
    ensures
        pow10(a + b) == pow10(a) * pow10(b),
    decreases a,
{
    if a > 0 {
        lemma_pow10_add((a - 1) as nat, b);
        let x = pow10((a - 1) as nat);
        let y = pow10(b);
        assert((a + b - 1) as nat == (a - 1 + b) as nat);
        assert(pow10(a + b) == 10 * pow10((a + b - 1) as nat));
        assert(pow10(a + b) == 10 * (x * y));
        assert(pow10(a) == 10 * x);
        assert(10 * (x * y) == (10 * x) * y) by (nonlinear_arith);
    } else {
        assert(pow10(0) == 1);
        assert(a + b == b);
        assert(1 * pow10(b) == pow10(b));
    }
}

proof fn lemma_pow10_big(e: nat)
    requires
        e >= 30,
    ensures
        pow10(e) > MAX_NANOS,
    decreases e,
{
    if e == 30 {
        reveal_with_fuel(pow10, 31);
    } else {
        lemma_pow10_big((e - 1) as nat);
    }
}

proof fn lemma_digit_run(s: Seq<char>)
    ensures
        digit_run(s) <= s.len(),
        forall|i: int| 0 <= i < digit_run(s) ==> is_digit(#[trigger] s[i]),
        digit_run(s) < s.len() ==> !is_digit(s[digit_run(s) as int]),
    decreases s.len(),
{
    if s.len() > 0 && is_digit(s[0]) {
        lemma_digit_run(s.drop_first());
        assert forall|i: int| 0 <= i < digit_run(s) implies is_digit(#[trigger] s[i]) by {
            if i > 0 {
                assert(s[i] == s.drop_first()[i - 1]);
            }
        }
    }
}

proof fn lemma_digit_run_exact(s: Seq<char>, n: nat)
    requires
        n <= s.len(),
        forall|m: int| 0 <= m < n ==> is_digit(#[trigger] s[m]),
        n < s.len() ==> !is_digit(s[n as int]),
    ensures
        digit_run(s) == n,
    decreases n,
{
    if n > 0 {
        assert forall|m: int| 0 <= m < n - 1 implies is_digit(#[trigger] s.drop_first()[m]) by {
            assert(s.drop_first()[m] == s[m + 1]);
        }
        lemma_digit_run_exact(s.drop_first(), (n - 1) as nat);
    }
}

pub(crate) proof fn lemma_value_step(d: Seq<char>, i: int)
    requires
        0 <= i < d.len(),
    ensures
        digits_value(d.take(i + 1)) == digits_value(d.take(i)) * 10 + digit_val(d[i]),
{
    assert(d.take(i + 1).drop_last() =~= d.take(i));
}

/// Splitting a digit string at `k` splits its value.
pub(crate) proof fn lemma_value_split(d: Seq<char>, k: int)
    requires
        0 <= k <= d.len(),
        forall|i: int| 0 <= i < d.len() ==> is_digit(#[trigger] d[i]),
    ensures
        digits_value(d) == digits_value(d.take(k)) * pow10((d.len() - k) as nat) + digits_value(
            d.skip(k),
        ),
        digits_value(d.skip(k)) < pow10((d.len() - k) as nat),
    decreases d.len(),
{
    if k == d.len() {
        assert(d.take(k) =~= d);
        assert(d.skip(k) =~= Seq::<char>::empty());
        assert(pow10(0) == 1);
        assert(digits_value(d) * 1 == digits_value(d));
        assert(digits_value(Seq::<char>::empty()) == 0);
    } else {
        let dl = d.drop_last();
        assert forall|i: int| 0 <= i < dl.len() implies is_digit(#[trigger] dl[i]) by {
            assert(dl[i] == d[i]);
        }
        lemma_value_split(dl, k);
        assert(dl.take(k) =~= d.take(k));
        assert(d.skip(k).drop_last() =~= dl.skip(k));
        assert(d.skip(k).last() == d.last());
        let a = digits_value(d.take(k));
        let p = pow10((dl.len() - k) as nat);
        let r = digits_value(dl.skip(k));
        let l = digit_val(d.last());
        assert(is_digit(d[d.len() - 1]));
        assert(l <= 9);
        assert((d.len() - k - 1) as nat == (dl.len() - k) as nat);
        assert(pow10((d.len() - k) as nat) == 10 * p);
        assert(digits_value(d) == digits_value(dl) * 10 + l);
        assert(d.skip(k).len() > 0);
        assert(digits_value(d.skip(k)) == digits_value(dl.skip(k)) * 10 + l);
        assert(digits_value(dl) == a * p + r);
        assert((a * p + r) * 10 + l == a * (10 * p) + (r * 10 + l)) by (nonlinear_arith);
        assert(r * 10 + l < 10 * p) by (nonlinear_arith)
            requires
                r < p,
                l <= 9,
        ;
        assert(digits_value(d) == a * pow10((d.len() - k) as nat) + digits_value(d.skip(k)));
    }
}

pub(crate) proof fn lemma_value_zero(d: Seq<char>)
    requires
        forall|i: int| 0 <= i < d.len() ==> is_digit(#[trigger] d[i]),
    ensures
        digits_value(d) == 0 <==> forall|i: int| 0 <= i < d.len() ==> #[trigger] d[i] == '0',
    decreases d.len(),
{
    if d.len() > 0 {
        let dl = d.drop_last();
        assert forall|i: int| 0 <= i < dl.len() implies is_digit(#[trigger] dl[i]) by {
            assert(dl[i] == d[i]);
        }
        lemma_value_zero(dl);
        if digits_value(d) == 0 {
            assert(digits_value(dl) == 0);
            assert forall|i: int| 0 <= i < d.len() implies #[trigger] d[i] == '0' by {
                if i < d.len() - 1 {
                    assert(d[i] == dl[i]);
                }
            }
        } else {
            if forall|i: int| 0 <= i < d.len() ==> #[trigger] d[i] == '0' {
                assert forall|i: int| 0 <= i < dl.len() implies #[trigger] dl[i] == '0' by {
                    assert(dl[i] == d[i]);
                }
                assert(d[d.len() - 1] == '0');
            }
        }
    }
}

/// Rounding away the last `m` digits: up where the first of them is above
/// 5, or is 5 and is followed by another nonzero digit, or is 5 alone and
/// what is kept is odd.
proof fn lemma_round_digits(d: Seq<char>, m: nat)
    requires
        1 <= m <= d.len(),
        forall|i: int| 0 <= i < d.len() ==> is_digit(#[trigger] d[i]),
    ensures
        ({
            let k = d.len() - m;
            let q = digits_value(d.take(k));
            let dig = digit_val(d[k]);
            let r2 = digits_value(d.skip(k + 1));
            round_even(digits_value(d), pow10(m)) == q + (if dig > 5 || (dig == 5 && (r2 > 0 || q
                % 2 == 1)) {
                1nat
            } else {
                0nat
            })
        }),
{
    let k = d.len() - m;
    lemma_value_split(d, k);
    let rest = d.skip(k);
    assert forall|i: int| 0 <= i < rest.len() implies is_digit(#[trigger] rest[i]) by {
        assert(rest[i] == d[k + i]);
    }
    lemma_value_split(rest, 1);
    assert(rest.skip(1) =~= d.skip(k + 1));
    assert(rest.take(1) =~= seq![d[k]]);
    assert(digits_value(seq![d[k]]) == digit_val(d[k])) by {
        let one = seq![d[k]];
        assert(one.drop_last() =~= Seq::<char>::empty());
        assert(digits_value(Seq::<char>::empty()) == 0);
        assert(one.last() == d[k]);
    }
    let q = digits_value(d.take(k));
    let dig = digit_val(d[k]);
    let t = pow10((m - 1) as nat);
    let r2 = digits_value(rest.skip(1));
    assert(rest.len() - 1 == m - 1);
    assert(pow10(m) == 10 * t);
    assert(is_digit(d[k]));
    assert(dig <= 9);
    lemma_pow10_positive((m - 1) as nat);
    let b = 10 * t;
    let rr = dig * t + r2;
    let v = q * b + rr;
    assert(digits_value(d) == v);
    assert(0 <= rr < b) by (nonlinear_arith)
        requires
            rr == dig * t + r2,
            b == 10 * t,
            dig <= 9,
            r2 < t,
            r2 >= 0,
    ;
    vstd::arithmetic::div_mod::lemma_fundamental_div_mod_converse(v as int, b as int, q as int, rr as int);
    assert(2 * rr > b <==> (dig > 5 || (dig == 5 && r2 > 0))) by (nonlinear_arith)
        requires
            rr == dig * t + r2,
            b == 10 * t,
            r2 < t,
            t >= 1,
            r2 >= 0,
            dig >= 0,
    ;
    assert(2 * rr == b <==> (dig == 5 && r2 == 0)) by (nonlinear_arith)
        requires
            rr == dig * t + r2,
            b == 10 * t,
            r2 < t,
            t >= 1,
            r2 >= 0,
            dig >= 0,
    ;
}

/// A value of fewer than `m` digits rounds away to zero.
proof fn lemma_round_small(d: Seq<char>, m: nat)
    requires
        m > d.len(),
        forall|i: int| 0 <= i < d.len() ==> is_digit(#[trigger] d[i]),
    ensures
        round_even(digits_value(d), pow10(m)) == 0,
{
    lemma_value_split(d, 0);
    assert(d.skip(0) =~= d);
    let v = digits_value(d);
    let n = d.len();
    lemma_pow10_add(n, (m - 1 - n) as nat);
    lemma_pow10_positive((m - 1 - n) as nat);
    let t = pow10((m - 1) as nat);
    assert(pow10(m) == 10 * t);
    assert(v < t) by (nonlinear_arith)
        requires
            v < pow10(n),
            t == pow10(n) * pow10((m - 1 - n) as nat),
            pow10((m - 1 - n) as nat) >= 1,
    ;
    vstd::arithmetic::div_mod::lemma_fundamental_div_mod_converse(v as int, (10 * t) as int, 0, v as int);
}

// ---------------------------------------------------------------------------
// Reading numbers.

/// The length of the run of ASCII digits in `s` from `lo`, not past `hi`.
fn digits_from(s: &Vec<char>, lo: usize, hi: usize) -> (n: usize)
    requires
        lo <= hi <= s.len(),
    ensures
        n == digit_run(s@.subrange(lo as int, hi as int)),
        lo + n <= hi,
{
    let mut i = lo;
    while i < hi && '0' <= s[i] && s[i] <= '9'
        invariant
            lo <= i <= hi <= s.len(),
            forall|m: int| lo <= m < i ==> is_digit(s@[m]),
        decreases hi - i,
    {
        i = i + 1;
    }
    proof {
        let t = s@.subrange(lo as int, hi as int);
        assert forall|m: int| 0 <= m < i - lo implies is_digit(#[trigger] t[m]) by {
            assert(t[m] == s@[lo + m]);
        }
        lemma_digit_run_exact(t, (i - lo) as nat);
    }
    i - lo
}

/// The value of the digits `d[..k]`, or `None` where it exceeds `limit`.
fn value_upto(d: &Vec<char>, k: usize, limit: u128) -> (r: Option<u128>)
    requires
        k <= d.len(),
        limit <= MAX_NANOS,
        forall|i: int| 0 <= i < d.len() ==> is_digit(#[trigger] d@[i]),
    ensures
        match r {
            Some(v) => v == digits_value(d@.take(k as int)) && v <= limit,
            None => digits_value(d@.take(k as int)) > limit,
        },
{
    let mut acc: u128 = 0;
    let mut i: usize = 0;
    assert(d@.take(0) =~= Seq::<char>::empty());
    while i < k
        invariant
            i <= k <= d.len(),
            limit <= MAX_NANOS,
            forall|j: int| 0 <= j < d.len() ==> is_digit(#[trigger] d@[j]),
            acc == digits_value(d@.take(i as int)),
            acc <= limit,
        decreases k - i,
    {
        proof {
            lemma_value_step(d@, i as int);
        }
        assert(is_digit(d@[i as int]));
        let dv = (d[i] as u32 - '0' as u32) as u128;
        let next = acc * 10 + dv;
        if next > limit {
            proof {
                // Later digits never make the value smaller.
                lemma_value_grows(d@, (i + 1) as int, k as int);
            }
            return None;
        }
        acc = next;
        i = i + 1;
    }
    Some(acc)
}

proof fn lemma_value_grows(d: Seq<char>, i: int, k: int)
    requires
        0 <= i <= k <= d.len(),
    ensures
        digits_value(d.take(i)) <= digits_value(d.take(k)),
    decreases k - i,
{
    if i < k {
        lemma_value_grows(d, i, k - 1);
        lemma_value_step(d, k - 1);
    }
}

/// Where the parts of a decimal number stand in a text.
struct FloatScan {
    negative: bool,
    int_lo: usize,
    p: usize,
    frac_lo: usize,
    q: usize,
    exp_neg: bool,
    /// The magnitude of the exponent; `None` where it exceeds `MAX_NANOS`.
    exp_mag: Option<u128>,
}

/// Reads the exponent digits `s[lo..hi]`, after the `e`.
fn scan_exponent(s: &Vec<char>, lo: usize, hi: usize) -> (r: Option<(bool, Option<u128>)>)
    requires
        lo <= hi <= s.len(),
    ensures
        ({
            let (eneg, ed) = split_sign(s@.subrange(lo as int, hi as int));
            match r {
                None => !(ed.len() > 0 && digit_run(ed) == ed.len()),
                Some((neg, mag)) => {
                    &&& ed.len() > 0 && digit_run(ed) == ed.len()
                    &&& neg == eneg
                    &&& match mag {
                        Some(v) => v == digits_value(ed) && v <= MAX_NANOS,
                        None => digits_value(ed) > MAX_NANOS,
                    }
                },
            }
        }),
{
    let mut j = lo;
    let mut exp_neg = false;
    if j < hi && (s[j] == '+' || s[j] == '-') {
        exp_neg = s[j] == '-';
        j = j + 1;
    }
    let ghost ed = s@.subrange(j as int, hi as int);
    assert(split_sign(s@.subrange(lo as int, hi as int)) == (exp_neg, ed)) by {
        if j > lo {
            assert(s@.subrange(lo as int, hi as int).drop_first() =~= ed);
        } else {
            assert(s@.subrange(lo as int, hi as int) =~= ed);
        }
    }
    let k = digits_from(s, j, hi);
    if k == 0 || j + k != hi {
        return None;
    }
    let ed_vec = crate::text::copy_range(s, j, hi);
    proof {
        lemma_digit_run(ed);
        assert(ed_vec@.take(k as int) =~= ed);
    }
    assert forall|x: int| 0 <= x < ed_vec.len() implies is_digit(#[trigger] ed_vec@[x]) by {
        assert(ed_vec@[x] == ed[x]);
    }
    Some((exp_neg, value_upto(&ed_vec, k, MAX_NANOS)))
}

/// Finds the parts of the decimal number `s[lo..hi]`, as `float_parts` says.
#[verifier::rlimit(100)]
#[verifier::spinoff_prover]
fn scan_float(s: &Vec<char>, lo: usize, hi: usize) -> (r: Option<FloatScan>)
    requires
        lo <= hi <= s.len(),
    ensures
        match r {
            None => float_parts(s@.subrange(lo as int, hi as int)) is None,
            Some(f) => {
                &&& lo <= f.int_lo && f.int_lo + f.p <= hi && f.frac_lo + f.q <= hi
                &&& f.p + f.q >= 1
                &&& float_parts(s@.subrange(lo as int, hi as int)) matches Some(fp)
                &&& fp.negative == f.negative
                &&& fp.digits == s@.subrange(f.int_lo as int, f.int_lo + f.p) + s@.subrange(
                    f.frac_lo as int,
                    f.frac_lo + f.q,
                )
                &&& fp.frac_len == f.q
                &&& forall|x: int| 0 <= x < fp.digits.len() ==> is_digit(#[trigger] fp.digits[x])
                &&& match f.exp_mag {
                    Some(v) => fp.exp == (if f.exp_neg {
                        -(v as int)
                    } else {
                        v as int
                    }) && v <= MAX_NANOS,
                    None => if f.exp_neg {
                        fp.exp < -(MAX_NANOS as int)
                    } else {
                        fp.exp > MAX_NANOS
                    },
                }
            },
        },
{
    let ghost t = s@.subrange(lo as int, hi as int);
    let mut i = lo;
    let mut negative = false;
    if i < hi && (s[i] == '+' || s[i] == '-') {
        negative = s[i] == '-';
        i = i + 1;
    }
    let ghost r = split_sign(t).1;
    assert(r =~= s@.subrange(i as int, hi as int));
    assert(negative == split_sign(t).0);
    let int_lo = i;
    let p = digits_from(s, i, hi);
    i = i + p;
    assert(r.skip(p as int) =~= s@.subrange(i as int, hi as int));
    let mut has_dot = false;
    if i < hi && s[i] == '.' {
        has_dot = true;
        i = i + 1;
    }
    let ghost after_dot = if has_dot {
        r.skip(p as int).drop_first()
    } else {
        r.skip(p as int)
    };
    assert(after_dot =~= s@.subrange(i as int, hi as int));
    let frac_lo = i;
    let q: usize = if has_dot {
        digits_from(s, i, hi)
    } else {
        0
    };
    i = i + q;
    assert(after_dot.skip(q as int) =~= s@.subrange(i as int, hi as int));
    proof {
        lemma_digit_run(r);
        lemma_digit_run(after_dot);
        assert(r.take(p as int) =~= s@.subrange(int_lo as int, int_lo + p));
        assert(after_dot.take(q as int) =~= s@.subrange(frac_lo as int, frac_lo + q));
    }
    let ghost digits = r.take(p as int) + after_dot.take(q as int);
    assert forall|x: int| 0 <= x < digits.len() implies is_digit(#[trigger] digits[x]) by {
        if x < p {
            assert(digits[x] == r[x]);
        } else {
            assert(digits[x] == after_dot[x - p]);
        }
    }
    if p + q == 0 {
        return None;
    }
    if i == hi {
        return Some(
            FloatScan { negative, int_lo, p, frac_lo, q, exp_neg: false, exp_mag: Some(0) },
        );
    }
    if s[i] != 'e' && s[i] != 'E' {
        return None;
    }
    assert(s@.subrange(i as int, hi as int).drop_first() =~= s@.subrange(i + 1, hi as int));
    let (exp_neg, exp_mag) = match scan_exponent(s, i + 1, hi) {
        None => {
            return None;
        },
        Some(e) => e,
    };
    Some(FloatScan { negative, int_lo, p, frac_lo, q, exp_neg, exp_mag })
}

/// Reads `digits * 10^shift` for a shift of less than 30.
fn scale_up(digits: &Vec<char>, shift: u32) -> (r: StampRead)
    requires
        shift < 30,
        forall|i: int| 0 <= i < digits.len() ==> is_digit(#[trigger] digits@[i]),
    ensures
        reports(r, Some(digits_value(digits@) * pow10(shift as nat))),
{
    let n = digits.len();
    assert(digits@.take(n as int) =~= digits@);
    match value_upto(digits, n, MAX_NANOS) {
        None => {
            proof {
                lemma_pow10_positive(shift as nat);
                assert(digits_value(digits@) * pow10(shift as nat) >= digits_value(digits@))
                    by (nonlinear_arith)
                    requires
                        pow10(shift as nat) >= 1,
                ;
            }
            StampRead::TooLarge
        },
        Some(v) => {
            let mut acc: u128 = v;
            let mut c: u32 = 0;
            assert(pow10(0) == 1);
            assert(digits_value(digits@) * 1 == digits_value(digits@));
            while c < shift
                invariant
                    0 <= c <= shift < 30,
                    acc == digits_value(digits@) * pow10(c as nat),
                    acc <= MAX_NANOS,
                decreases shift - c,
            {
                let next = acc * 10;
                proof {
                    assert(pow10((c + 1) as nat) == 10 * pow10(c as nat));
                    assert(next == digits_value(digits@) * pow10((c + 1) as nat))
                        by (nonlinear_arith)
                        requires
                            acc == digits_value(digits@) * pow10(c as nat),
                            pow10((c + 1) as nat) == 10 * pow10(c as nat),
                            next == acc * 10,
                    ;
                }
                if next > MAX_NANOS {
                    proof {
                        lemma_pow10_add((c + 1) as nat, (shift - c - 1) as nat);
                        lemma_pow10_positive((shift - c - 1) as nat);
                        let a = digits_value(digits@) * pow10((c + 1) as nat);
                        let b = pow10((shift - c - 1) as nat);
                        assert(digits_value(digits@) * pow10(shift as nat) == a * b)
                            by (nonlinear_arith)
                            requires
                                pow10(shift as nat) == pow10((c + 1) as nat) * b,
                                a == digits_value(digits@) * pow10((c + 1) as nat),
                        ;
                        assert(a * b >= a) by (nonlinear_arith)
                            requires
                                b >= 1,
                                a >= 0,
                        ;
                    }
                    return StampRead::TooLarge;
                }
                acc = next;
                c = c + 1;
            }
            StampRead::Nanos(acc)
        },
    }
}

/// Reads `digits / 10^m` rounded to the nearest whole number, halves to
/// even, for `1 <= m <= digits.len()`.
fn round_down(digits: &Vec<char>, m: usize) -> (r: StampRead)
    requires
        1 <= m <= digits.len(),
        forall|i: int| 0 <= i < digits.len() ==> is_digit(#[trigger] digits@[i]),
    ensures
        reports(r, Some(round_even(digits_value(digits@), pow10(m as nat)))),
{
    let n = digits.len();
    let keep = n - m;
    assert(is_digit(digits@[keep as int]));
    let ghost after = digits@.skip(keep + 1);
    let mut rest_zero = true;
    let mut z: usize = keep + 1;
    while z < n
        invariant
            keep + 1 <= z <= n == digits.len(),
            after == digits@.skip(keep + 1),
            rest_zero == forall|x: int| 0 <= x < z - (keep + 1) ==> #[trigger] after[x] == '0',
        decreases n - z,
    {
        if digits[z] != '0' {
            rest_zero = false;
        }
        assert(after[z - (keep + 1)] == digits@[z as int]);
        z = z + 1;
    }
    proof {
        assert forall|x: int| 0 <= x < after.len() implies is_digit(#[trigger] after[x]) by {
            assert(after[x] == digits@[keep + 1 + x]);
        }
        lemma_value_zero(after);
        lemma_round_digits(digits@, m as nat);
    }
    match value_upto(digits, keep, MAX_NANOS) {
        None => StampRead::TooLarge,
        Some(v) => {
            let up: u128 = if digits[keep] > '5' || (digits[keep] == '5' && (!rest_zero || v % 2
                == 1)) {
                1
            } else {
                0
            };
            assert(digits@.take(keep as int) == digits@.take(n - m));
            if v + up > MAX_NANOS {
                StampRead::TooLarge
            } else {
                StampRead::Nanos(v + up)
            }
        },
    }
}

/// Reads the nonzero number `digits * 10^(exp - q + 9)`.
fn read_scaled(
    digits: &Vec<char>,
    q: usize,
    exp_neg: bool,
    exp_mag: Option<u128>,
    Ghost(exp): Ghost<int>,
) -> (r: StampRead)
    requires
        q <= digits.len(),
        forall|i: int| 0 <= i < digits.len() ==> is_digit(#[trigger] digits@[i]),
        digits_value(digits@) != 0,
        match exp_mag {
            Some(v) => exp == (if exp_neg {
                -(v as int)
            } else {
                v as int
            }) && v <= MAX_NANOS,
            None => if exp_neg {
                exp < -(MAX_NANOS as int)
            } else {
                exp > MAX_NANOS
            },
        },
    ensures
        reports(r, Some(scaled_value(digits@, exp - q + 9))),
{
    let n = digits.len();
    let ghost shift = exp - q + 9;
    match exp_mag {
        None => {
            if exp_neg {
                proof {
                    lemma_round_small(digits@, (-shift) as nat);
                }
                StampRead::Nanos(0)
            } else {
                proof {
                    lemma_pow10_big(shift as nat);
                    assert(digits_value(digits@) * pow10(shift as nat) >= pow10(shift as nat))
                        by (nonlinear_arith)
                        requires
                            digits_value(digits@) >= 1,
                    ;
                }
                StampRead::TooLarge
            }
        },
        Some(v) => {
            let e: i128 = if exp_neg {
                -(v as i128)
            } else {
                v as i128
            };
            let sh: i128 = e - q as i128 + 9;
            assert(sh == shift);
            if sh >= 30 {
                proof {
                    lemma_pow10_big(shift as nat);
                    assert(digits_value(digits@) * pow10(shift as nat) >= pow10(shift as nat))
                        by (nonlinear_arith)
                        requires
                            digits_value(digits@) >= 1,
                    ;
                }
                StampRead::TooLarge
            } else if sh >= 0 {
                scale_up(digits, sh as u32)
            } else if -sh > n as i128 {
                proof {
                    lemma_round_small(digits@, (-shift) as nat);
                }
                StampRead::Nanos(0)
            } else {
                round_down(digits, (-sh) as usize)
            }
        },
    }
}

/// Reads the seconds that `s[lo..hi]` writes, as `seconds_nanos` says.
pub fn read_seconds(s: &Vec<char>, lo: usize, hi: usize) -> (r: StampRead)
    requires
        lo <= hi <= s.len(),
    ensures
        reports(r, seconds_nanos(s@.subrange(lo as int, hi as int))),
{
    let ghost t = s@.subrange(lo as int, hi as int);
    let f = match scan_float(s, lo, hi) {
        None => {
            return StampRead::Invalid;
        },
        Some(f) => f,
    };
    let ghost fp = float_parts(t)->0;
    let mut digits: Vec<char> = crate::text::copy_range(s, f.int_lo, f.int_lo + f.p);
    let frac_digits = crate::text::copy_range(s, f.frac_lo, f.frac_lo + f.q);
    let mut m: usize = 0;
    while m < f.q
        invariant
            m <= f.q,
            f.q == frac_digits.len(),
            digits@ == s@.subrange(f.int_lo as int, f.int_lo + f.p) + frac_digits@.take(m as int),
        decreases f.q - m,
    {
        digits.push(frac_digits[m]);
        m = m + 1;
        assert(digits@ =~= s@.subrange(f.int_lo as int, f.int_lo + f.p) + frac_digits@.take(
            m as int,
        ));
    }
    assert(frac_digits@.take(f.q as int) =~= frac_digits@);
    assert(digits@ == fp.digits);
    let n = digits.len();
    let mut all_zero = true;
    let mut z: usize = 0;
    while z < n
        invariant
            z <= n == digits.len(),
            all_zero == forall|x: int| 0 <= x < z ==> #[trigger] digits@[x] == '0',
        decreases n - z,
    {
        if digits[z] != '0' {
            all_zero = false;
        }
        z = z + 1;
    }
    proof {
        lemma_value_zero(digits@);
    }
    if all_zero {
        proof {
            lemma_zero_fits(digits@, fp.exp - fp.frac_len);
            let sh = fp.exp - fp.frac_len + 9;
            if sh >= 0 {
                assert(0 * pow10(sh as nat) == 0);
            } else {
                let pp = pow10((-sh) as nat);
                lemma_pow10_positive((-sh) as nat);
                vstd::arithmetic::div_mod::lemma_fundamental_div_mod_converse(0, pp as int, 0, 0);
            }
        }
        return StampRead::Nanos(0);
    }
    if f.negative && !underflows(&digits, f.q, f.exp_neg, f.exp_mag, Ghost(fp.exp)) {
        return StampRead::Invalid;
    }
    if overflows(&digits, f.q, f.exp_neg, f.exp_mag, Ghost(fp.exp)) {
        return StampRead::Invalid;
    }
    read_scaled(&digits, f.q, f.exp_neg, f.exp_mag, Ghost(fp.exp))
}

/// Reads `s[lo..hi]` as `u64::from_str` does.
fn read_u64(s: &Vec<char>, lo: usize, hi: usize) -> (r: Option<u64>)
    requires
        lo <= hi <= s.len(),
    ensures
        match r {
            Some(v) => u64_value(s@.subrange(lo as int, hi as int)) == Some(v as nat),
            None => u64_value(s@.subrange(lo as int, hi as int)) is None,
        },
{
    let ghost t = s@.subrange(lo as int, hi as int);
    let mut i = lo;
    if i < hi && s[i] == '+' {
        i = i + 1;
        assert(t.drop_first() =~= s@.subrange(i as int, hi as int));
    } else {
        assert(t =~= s@.subrange(i as int, hi as int));
    }
    let ghost d = s@.subrange(i as int, hi as int);
    let k = digits_from(s, i, hi);
    if k == 0 || i + k != hi {
        return None;
    }
    let dv = crate::text::copy_range(s, i, hi);
    proof {
        lemma_digit_run(d);
        assert(dv@.take(k as int) =~= d);
    }
    assert forall|x: int| 0 <= x < dv.len() implies is_digit(#[trigger] dv@[x]) by {
        assert(dv@[x] == d[x]);
    }
    match value_upto(&dv, k, u64::MAX as u128) {
        Some(v) => Some(v as u64),
        None => None,
    }
}

/// Reads the timestamp `s[lo..hi]`, as `timestamp_nanos` says.
pub fn read_timestamp(s: &Vec<char>, lo: usize, hi: usize) -> (r: StampRead)
    requires
        lo <= hi <= s.len(),
    ensures
        reports(r, timestamp_nanos(s@.subrange(lo as int, hi as int))),
{
    let (a, b) = trim_bounds(s, lo, hi);
    let ghost t = s@.subrange(a as int, b as int);
    if a == b {
        return StampRead::Invalid;
    }
    match find_in(s, a, b, ':') {
        None => {
            read_seconds(s, a, b)
        },
        Some(c) => {
            assert(t.take(c - a) =~= s@.subrange(a as int, c as int));
            assert(t.skip(c - a + 1) =~= s@.subrange(c + 1, b as int));
            let minutes = read_u64(s, a, c);
            let secs = read_seconds(s, c + 1, b);
            match (minutes, secs) {
                (Some(m), StampRead::Nanos(n)) => {
                    let total: u128 = m as u128 * 60 * NANOS_PER_SEC + n;
                    if total > MAX_NANOS {
                        StampRead::TooLarge
                    } else {
                        StampRead::Nanos(total)
                    }
                },
                (Some(m), StampRead::TooLarge) => {
                    StampRead::TooLarge
                },
                _ => StampRead::Invalid,
            }
        },
    }
}

/// Parses a timestamp: after trimming, `minutes:seconds` or `seconds`, where
/// minutes are read as `u64::from_str` reads them and seconds as
/// `f64::from_str` does, negative seconds (but those it reads as zero) and
/// seconds it reads as infinity refused; the result is rounded to the nearest nanosecond, halves
/// to even, from the number as written (see `seconds_nanos`).
pub fn parse_timestamp(text: &str) -> (r: Option<Duration>)
    requires
        timestamp_fits(text@),
    ensures
        match r {
            Some(d) => timestamp_nanos(text@) == Some(d@),
            None => timestamp_nanos(text@) is None,
        },
{
    let chars = chars_of(text);
    assert(chars@.subrange(0, chars.len() as int) =~= text@);
    match read_timestamp(&chars, 0, chars.len()) {
        StampRead::Nanos(n) => Some(Duration::from_nanos_saturating(n)),
        _ => None,
    }
}

} // verus!
