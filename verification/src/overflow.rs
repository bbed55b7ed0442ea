use vstd::prelude::*;

use crate::duration::MAX_NANOS;
use crate::text::chars_of;
use crate::timestamp::{
    digits_value, digit_val, is_digit, pow10, lemma_pow10_positive, lemma_pow10_add,
    lemma_value_step, lemma_value_split, lemma_value_zero,
};

verus! {

/// Whether `digits * 10^shift` is at least the number that the digit string
/// `t` writes.
pub open spec fn reaches(digits: Seq<char>, shift: int, t: Seq<char>) -> bool {
    if shift >= 0 {
        digits_value(digits) * pow10(shift as nat) >= digits_value(t)
    } else {
        digits_value(digits) >= digits_value(t) * pow10((-shift) as nat)
    }
}

/// The decimal digits of 2^1024 - 2^970, half way between the largest finite
/// `f64` and 2^1024: the least number that `f64::from_str` reads as infinity
/// (a tie there rounds to the even neighbour, which is infinity).
pub open spec fn f64_overflow_digits() -> Seq<char> {
    "179769313486231580793728971405303415079934132710037826936173778980444968292764750946649017977587207096330286416692887910946555547851940402630657488671505820681908902000708383676273854845817711531764475730270069855571366959622842914819860834936475292719074168444365510704342711559699508093042880177904174497792"@
}

/// Whether `digits * 10^shift` is a number that `f64::from_str` reads as
/// infinity.
pub open spec fn overflows_f64(digits: Seq<char>, shift: int) -> bool {
    reaches(digits, shift, f64_overflow_digits())
}

/// The decimal digits of 5^1075 + 1: 2^-1075, half the least positive `f64`,
/// times 10^1075, plus one. Numbers up to 2^-1075 (a tie there rounds to the
/// even neighbour, zero) are read by `f64::from_str` as zero.
pub open spec fn f64_underflow_digits() -> Seq<char> {
    "24703282292062327208828439643411068618252990130716238221279284125033775363510437593264991818081799618989828234772285886546332835517796989819938739800539093906315035659515570226392290858392449105184435931802849936536152500319370457678249219365623669863658480757001585769269903706311928279558551332927834338409351978015531246597263579574622766465272827220056374006485499977096599470454020828166226237857393450736339007967761930577506740176324673600968951340535537458516661134223766678604162159680461914467291840300530057530849048765391711386591646239524912623653881879636239373280423891018672348497668235089863388587925628302755995657524455507255189313690836254779186948667994968324049705821028513185451396213837722826145437693412532098591327667236328126"@
}

/// Whether `digits * 10^shift` is a number that `f64::from_str` reads as
/// zero: at most 2^-1075.
pub open spec fn underflows_f64(digits: Seq<char>, shift: int) -> bool {
    !reaches(digits, shift + 1075, f64_underflow_digits())
}

proof fn lemma_overflow_digits()
    ensures
        f64_overflow_digits().len() == 309,
        f64_overflow_digits()[0] != '0',
        forall|i: int|
            0 <= i < f64_overflow_digits().len() ==> is_digit(#[trigger] f64_overflow_digits()[i]),
{
    reveal_strlit("179769313486231580793728971405303415079934132710037826936173778980444968292764750946649017977587207096330286416692887910946555547851940402630657488671505820681908902000708383676273854845817711531764475730270069855571366959622842914819860834936475292719074168444365510704342711559699508093042880177904174497792");
}

proof fn lemma_underflow_digits()
    ensures
        f64_underflow_digits().len() == 752,
        f64_underflow_digits()[0] != '0',
        forall|i: int|
            0 <= i < f64_underflow_digits().len() ==> is_digit(#[trigger] f64_underflow_digits()[i]),
{
    reveal_strlit("24703282292062327208828439643411068618252990130716238221279284125033775363510437593264991818081799618989828234772285886546332835517796989819938739800539093906315035659515570226392290858392449105184435931802849936536152500319370457678249219365623669863658480757001585769269903706311928279558551332927834338409351978015531246597263579574622766465272827220056374006485499977096599470454020828166226237857393450736339007967761930577506740176324673600968951340535537458516661134223766678604162159680461914467291840300530057530849048765391711386591646239524912623653881879636239373280423891018672348497668235089863388587925628302755995657524455507255189313690836254779186948667994968324049705821028513185451396213837722826145437693412532098591327667236328126");
}

/// Ten to a larger power is larger.
proof fn lemma_pow10_mono(a: nat, b: nat)
    requires
        a <= b,
    ensures
        pow10(a) <= pow10(b),
{
    lemma_pow10_add(a, (b - a) as nat);
    lemma_pow10_positive((b - a) as nat);
    lemma_pow10_positive(a);
    assert(pow10(a) <= pow10(a) * pow10((b - a) as nat)) by (nonlinear_arith)
        requires
            pow10((b - a) as nat) >= 1,
    ;
}

/// A digit string of `n` digits that starts with a nonzero digit lies in
/// `[10^(n-1), 10^n)`.
proof fn lemma_value_bounds(d: Seq<char>)
    requires
        d.len() >= 1,
        d[0] != '0',
        forall|i: int| 0 <= i < d.len() ==> is_digit(#[trigger] d[i]),
    ensures
        pow10((d.len() - 1) as nat) <= digits_value(d) < pow10(d.len() as nat),
{
    lemma_value_split(d, 0);
    assert(d.skip(0) =~= d);
    lemma_value_split(d, 1);
    lemma_value_step(d, 0);
    assert(d.take(0) =~= Seq::<char>::empty());
    assert(is_digit(d[0]));
    let lead = digits_value(d.take(1));
    assert(lead >= 1);
    let p = pow10((d.len() - 1) as nat);
    assert(lead * p >= p) by (nonlinear_arith)
        requires
            lead >= 1,
            p >= 0,
    ;
}

/// Leading zeros add nothing to a digit string's value.
proof fn lemma_strip_zeros(d: Seq<char>, z: int)
    requires
        0 <= z <= d.len(),
        forall|i: int| 0 <= i < d.len() ==> is_digit(#[trigger] d[i]),
        forall|i: int| 0 <= i < z ==> #[trigger] d[i] == '0',
    ensures
        digits_value(d) == digits_value(d.skip(z)),
{
    lemma_value_split(d, z);
    let h = d.take(z);
    assert forall|i: int| 0 <= i < h.len() implies is_digit(#[trigger] h[i]) by {
        assert(h[i] == d[i]);
    }
    assert forall|i: int| 0 <= i < h.len() implies #[trigger] h[i] == '0' by {
        assert(h[i] == d[i]);
    }
    lemma_value_zero(h);
    assert(0 * pow10((d.len() - z) as nat) == 0);
}

/// Of two digit strings of one length that agree before `i`, the one with
/// the larger digit at `i` has the larger value.
proof fn lemma_first_difference(a: Seq<char>, b: Seq<char>, i: int)
    requires
        a.len() == b.len(),
        0 <= i < a.len(),
        forall|j: int| 0 <= j < a.len() ==> is_digit(#[trigger] a[j]),
        forall|j: int| 0 <= j < b.len() ==> is_digit(#[trigger] b[j]),
        forall|j: int| 0 <= j < i ==> #[trigger] a[j] == b[j],
        digit_val(a[i]) > digit_val(b[i]),
    ensures
        digits_value(a) > digits_value(b),
{
    lemma_value_split(a, i + 1);
    lemma_value_split(b, i + 1);
    lemma_value_step(a, i);
    lemma_value_step(b, i);
    assert(a.take(i) =~= b.take(i));
    let pre = digits_value(a.take(i));
    let ha = digits_value(a.take(i + 1));
    let hb = digits_value(b.take(i + 1));
    let p = pow10((a.len() - (i + 1)) as nat);
    let ra = digits_value(a.skip(i + 1));
    let rb = digits_value(b.skip(i + 1));
    assert(ha >= hb + 1);
    assert(ha * p + ra > hb * p + rb) by (nonlinear_arith)
        requires
            ha >= hb + 1,
            rb < p,
            ra >= 0,
    ;
}

fn overflow_digit_chars() -> (v: Vec<char>)
    ensures
        v@ == f64_overflow_digits(),
{
    chars_of("179769313486231580793728971405303415079934132710037826936173778980444968292764750946649017977587207096330286416692887910946555547851940402630657488671505820681908902000708383676273854845817711531764475730270069855571366959622842914819860834936475292719074168444365510704342711559699508093042880177904174497792")
}

fn underflow_digit_chars() -> (v: Vec<char>)
    ensures
        v@ == f64_underflow_digits(),
{
    chars_of("24703282292062327208828439643411068618252990130716238221279284125033775363510437593264991818081799618989828234772285886546332835517796989819938739800539093906315035659515570226392290858392449105184435931802849936536152500319370457678249219365623669863658480757001585769269903706311928279558551332927834338409351978015531246597263579574622766465272827220056374006485499977096599470454020828166226237857393450736339007967761930577506740176324673600968951340535537458516661134223766678604162159680461914467291840300530057530849048765391711386591646239524912623653881879636239373280423891018672348497668235089863388587925628302755995657524455507255189313690836254779186948667994968324049705821028513185451396213837722826145437693412532098591327667236328126")
}

/// Zero reaches no positive threshold.
proof fn lemma_zero_short(d: Seq<char>, shift: int, t: Seq<char>)
    requires
        digits_value(d) == 0,
        t.len() >= 1,
        t[0] != '0',
        forall|i: int| 0 <= i < t.len() ==> is_digit(#[trigger] t[i]),
    ensures
        !reaches(d, shift, t),
{
    lemma_value_bounds(t);
    lemma_pow10_positive((t.len() - 1) as nat);
    if shift >= 0 {
        assert(0 * pow10(shift as nat) == 0);
    } else {
        let k = (-shift) as nat;
        lemma_pow10_positive(k);
        let tv = digits_value(t);
        assert(tv * pow10(k) >= 1) by (nonlinear_arith)
            requires
                tv >= 1,
                pow10(k) >= 1,
        ;
    }
}

/// Zero is read neither as infinity nor as anything but zero.
pub(crate) proof fn lemma_zero_fits(d: Seq<char>, shift: int)
    requires
        digits_value(d) == 0,
    ensures
        !overflows_f64(d, shift),
        underflows_f64(d, shift),
{
    lemma_overflow_digits();
    lemma_underflow_digits();
    lemma_zero_short(d, shift, f64_overflow_digits());
    lemma_zero_short(d, shift + 1075, f64_underflow_digits());
}

/// A number with its leading digit at place `n + shift` below the
/// threshold's length falls short of it, and one with it above reaches it.
proof fn lemma_by_magnitude(e: Seq<char>, shift: int, t: Seq<char>)
    requires
        e.len() >= 1,
        e[0] != '0',
        forall|i: int| 0 <= i < e.len() ==> is_digit(#[trigger] e[i]),
        t.len() >= 1,
        t[0] != '0',
        forall|i: int| 0 <= i < t.len() ==> is_digit(#[trigger] t[i]),
    ensures
        e.len() + shift < t.len() ==> !reaches(e, shift, t),
        e.len() + shift > t.len() ==> reaches(e, shift, t),
{
    lemma_value_bounds(t);
    lemma_value_bounds(e);
    let n = e.len();
    let l = t.len();
    let tv = digits_value(t);
    let ev = digits_value(e);
    lemma_pow10_positive((l - 1) as nat);
    if shift >= 0 {
        let s = shift as nat;
        let ps = pow10(s);
        lemma_pow10_positive(s);
        lemma_pow10_add(n, s);
        lemma_pow10_add((n - 1) as nat, s);
        if n + shift < l {
            lemma_pow10_mono(n + s, (l - 1) as nat);
            assert(ev * ps < pow10(n) * ps) by (nonlinear_arith)
                requires
                    ev < pow10(n),
                    ps >= 1,
            ;
        }
        if n + shift > l {
            lemma_pow10_mono(l, (n - 1 + s) as nat);
            assert(ev * ps >= pow10((n - 1) as nat) * ps) by (nonlinear_arith)
                requires
                    ev >= pow10((n - 1) as nat),
                    ps >= 1,
            ;
        }
    } else {
        let k = (-shift) as nat;
        let pk = pow10(k);
        lemma_pow10_positive(k);
        if n + shift < l {
            if n <= k {
                lemma_pow10_mono(n, k);
                assert(tv * pk >= pk) by (nonlinear_arith)
                    requires
                        tv >= 1,
                        pk >= 1,
                ;
            } else {
                lemma_pow10_add((n - k) as nat, k);
                lemma_pow10_mono((n - k) as nat, (l - 1) as nat);
                assert(pow10((n - k) as nat) * pk <= tv * pk) by (nonlinear_arith)
                    requires
                        pow10((n - k) as nat) <= tv,
                        pk >= 1,
                ;
            }
        }
        if n + shift > l {
            lemma_pow10_add((n - 1 - k) as nat, k);
            lemma_pow10_mono(l, (n - 1 - k) as nat);
            assert(pow10((n - 1 - k) as nat) * pk > tv * pk) by (nonlinear_arith)
                requires
                    pow10((n - 1 - k) as nat) > tv,
                    pk >= 1,
            ;
        }
    }
}

/// With the leading digit at the threshold's length, comparing as many
/// leading digits (padded with zeros) with the threshold's decides.
proof fn lemma_at_length(e: Seq<char>, shift: int, p: Seq<char>, t: Seq<char>)
    requires
        e.len() >= 1,
        forall|i: int| 0 <= i < e.len() ==> is_digit(#[trigger] e[i]),
        e.len() + shift == t.len(),
        p.len() == t.len(),
        forall|j: int| 0 <= j < p.len() ==> #[trigger] p[j] == (if j < e.len() {
            e[j]
        } else {
            '0'
        }),
    ensures
        reaches(e, shift, t) == (digits_value(p) >= digits_value(t)),
{
    let n = e.len();
    let l = t.len();
    let tv = digits_value(t);
    assert forall|j: int| 0 <= j < p.len() implies is_digit(#[trigger] p[j]) by {
        if j < n {
            assert(is_digit(e[j]));
        }
    }
    if shift >= 0 {
        lemma_value_split(p, n as int);
        assert(p.take(n as int) =~= e);
        let tail = p.skip(n as int);
        assert forall|j: int| 0 <= j < tail.len() implies is_digit(#[trigger] tail[j]) by {
            assert(tail[j] == p[n + j]);
        }
        assert forall|j: int| 0 <= j < tail.len() implies #[trigger] tail[j] == '0' by {
            assert(tail[j] == p[n + j]);
        }
        lemma_value_zero(tail);
        assert((l - n) as nat == shift as nat);
    } else {
        let k = (-shift) as nat;
        lemma_value_split(e, l as int);
        assert(e.take(l as int) =~= p);
        let pk = pow10(k);
        let pv = digits_value(p);
        let r = digits_value(e.skip(l as int));
        assert((n - l) as nat == k);
        assert(digits_value(e) == pv * pk + r);
        assert((pv * pk + r >= tv * pk) == (pv >= tv)) by (nonlinear_arith)
            requires
                r < pk,
                r >= 0,
                pk >= 1,
        {
            if pv >= tv {
                assert(pv * pk >= tv * pk);
            } else {
                assert(pv + 1 <= tv);
                assert((pv + 1) * pk <= tv * pk);
            }
        }
    }
}

/// Whether the nonzero number `digits * 10^(exp - q + offset)` reaches the
/// number that the digit string `t` writes.
fn reaches_exec(
    digits: &Vec<char>,
    q: usize,
    exp_neg: bool,
    exp_mag: Option<u128>,
    Ghost(exp): Ghost<int>,
    offset: u32,
    t: &Vec<char>,
) -> (b: bool)
    requires
        q <= digits.len(),
        forall|i: int| 0 <= i < digits.len() ==> is_digit(#[trigger] digits@[i]),
        digits_value(digits@) != 0,
        match exp_mag {
            Some(v) => exp == (if exp_neg {
                -(v as int)
            } else {
                v as int
            }) && v <= MAX_NANOS,
            None => if exp_neg {
                exp < -(MAX_NANOS as int)
            } else {
                exp > MAX_NANOS
            },
        },
        offset <= 2000,
        1 <= t.len() <= 2000,
        t@[0] != '0',
        forall|i: int| 0 <= i < t.len() ==> is_digit(#[trigger] t@[i]),
    ensures
        b == reaches(digits@, exp - q + offset, t@),
{
    let len = digits.len();
    let tl = t.len();
    let mut z: usize = 0;
    while z < len && digits[z] == '0'
        invariant
            z <= len == digits.len(),
            forall|i: int| 0 <= i < z ==> #[trigger] digits@[i] == '0',
        decreases len - z,
    {
        z = z + 1;
    }
    proof {
        lemma_value_zero(digits@);
    }
    assert(z < len);
    let n = len - z;
    let ghost e = digits@.skip(z as int);
    let ghost sh = exp - q + offset;
    proof {
        lemma_strip_zeros(digits@, z as int);
        assert(e[0] == digits@[z as int]);
        assert forall|i: int| 0 <= i < e.len() implies is_digit(#[trigger] e[i]) by {
            assert(e[i] == digits@[z + i]);
        }
        lemma_by_magnitude(e, sh, t@);
    }
    let lead: i128 = match exp_mag {
        None => {
            return !exp_neg;
        },
        Some(v) => {
            let x: i128 = if exp_neg {
                -(v as i128)
            } else {
                v as i128
            };
            n as i128 + x - q as i128 + offset as i128
        },
    };
    assert(lead == n + sh);
    if lead < tl as i128 {
        return false;
    }
    if lead > tl as i128 {
        return true;
    }
    let ghost p = Seq::new(tl as nat, |j: int| if j < n { e[j] } else { '0' });
    proof {
        lemma_at_length(e, sh, p, t@);
        assert forall|j: int| 0 <= j < p.len() implies is_digit(#[trigger] p[j]) by {
            if j < n {
                assert(is_digit(e[j]));
            }
        }
    }
    let mut j: usize = 0;
    while j < tl
        invariant
            j <= tl == t.len(),
            z + n == len == digits.len(),
            e == digits@.skip(z as int),
            p.len() == tl,
            forall|i: int| 0 <= i < tl ==> #[trigger] p[i] == (if i < n {
                e[i]
            } else {
                '0'
            }),
            forall|i: int| 0 <= i < p.len() ==> is_digit(#[trigger] p[i]),
            forall|i: int| 0 <= i < t.len() ==> is_digit(#[trigger] t@[i]),
            forall|i: int| 0 <= i < j ==> #[trigger] p[i] == t@[i],
            reaches(e, sh, t@) == (digits_value(p) >= digits_value(t@)),
            digits_value(digits@) == digits_value(e),
            sh == exp - q + offset,
        decreases tl - j,
    {
        let c = if j < n {
            digits[z + j]
        } else {
            '0'
        };
        assert(c == p[j as int]) by {
            if j < n {
                assert(e[j as int] == digits@[z + j]);
            }
        }
        if c != t[j] {
            proof {
                if c > t[j as int] {
                    lemma_first_difference(p, t@, j as int);
                } else {
                    assert forall|i: int| 0 <= i < j implies #[trigger] t@[i] == p[i] by {}
                    lemma_first_difference(t@, p, j as int);
                }
                assert(reaches(digits@, exp - q + offset, t@) == reaches(e, sh, t@));
            }
            return c > t[j];
        }
        j = j + 1;
    }
    assert(p =~= t@);
    true
}

/// Whether the nonzero number `digits * 10^(exp - q)` is one that
/// `f64::from_str` reads as infinity.
pub(crate) fn overflows(
    digits: &Vec<char>,
    q: usize,
    exp_neg: bool,
    exp_mag: Option<u128>,
    Ghost(exp): Ghost<int>,
) -> (b: bool)
    requires
        q <= digits.len(),
        forall|i: int| 0 <= i < digits.len() ==> is_digit(#[trigger] digits@[i]),
        digits_value(digits@) != 0,
        match exp_mag {
            Some(v) => exp == (if exp_neg {
                -(v as int)
            } else {
                v as int
            }) && v <= MAX_NANOS,
            None => if exp_neg {
                exp < -(MAX_NANOS as int)
            } else {
                exp > MAX_NANOS
            },
        },
    ensures
        b == overflows_f64(digits@, exp - q),
{
    let t = overflow_digit_chars();
    proof {
        lemma_overflow_digits();
    }
    reaches_exec(digits, q, exp_neg, exp_mag, Ghost(exp), 0, &t)
}

/// Whether the nonzero number `digits * 10^(exp - q)` is one that
/// `f64::from_str` reads as zero.
pub(crate) fn underflows(
    digits: &Vec<char>,
    q: usize,
    exp_neg: bool,
    exp_mag: Option<u128>,
    Ghost(exp): Ghost<int>,
) -> (b: bool)
    requires
        q <= digits.len(),
        forall|i: int| 0 <= i < digits.len() ==> is_digit(#[trigger] digits@[i]),
        digits_value(digits@) != 0,
        match exp_mag {
            Some(v) => exp == (if exp_neg {
                -(v as int)
            } else {
                v as int
            }) && v <= MAX_NANOS,
            None => if exp_neg {
                exp < -(MAX_NANOS as int)
            } else {
                exp > MAX_NANOS
            },
        },
    ensures
        b == underflows_f64(digits@, exp - q),
{
    let t = underflow_digit_chars();
    proof {
        lemma_underflow_digits();
    }
    !reaches_exec(digits, q, exp_neg, exp_mag, Ghost(exp), 1075, &t)
}

} // verus!
