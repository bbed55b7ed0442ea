use vstd::prelude::*;

use crate::duration::{Duration, MAX_NANOS, NANOS_PER_MILLI, clamp_nanos};
use crate::text::{words_of, word_bounds, copy_range};
use crate::timestamp::{round_div, round_even};

verus! {

/// What `char::is_alphanumeric` answers for `c` (Unicode `Alphabetic` or
/// `Numeric`), as Rust's bundled Unicode tables decide it.
pub uninterp spec fn alphanumeric(c: char) -> bool;

/// Whether `c` is an ASCII letter or digit.
pub open spec fn ascii_alphanumeric(c: char) -> bool {
    ||| ('a' <= c && c <= 'z')
    ||| ('A' <= c && c <= 'Z')
    ||| ('0' <= c && c <= '9')
}

/// Calls `char::is_alphanumeric`. Claimed of it: the answer depends on `c`
/// alone, and among ASCII chars exactly the letters and digits are
/// alphanumeric (the only ASCII chars with the `Alphabetic` or `Numeric`
/// property); beyond ASCII nothing is said.
#[verifier::external_body]
fn is_alphanumeric(c: char) -> (b: bool)
    ensures
        b == alphanumeric(c),
        (c as u32) < 128 ==> (b == ascii_alphanumeric(c)),
{
    c.is_alphanumeric()
}

/// How many chars of `w` are ASCII letters or digits.
pub open spec fn count_ascii_alnum(w: Seq<char>) -> nat
    decreases w.len(),
{
    if w.len() == 0 {
        0
    } else {
        count_ascii_alnum(w.drop_last()) + if ascii_alphanumeric(w.last()) {
            1nat
        } else {
            0nat
        }
    }
}

/// Whether every char of `w` is ASCII.
pub open spec fn all_ascii(w: Seq<char>) -> bool {
    forall|i: int| 0 <= i < w.len() ==> (#[trigger] w[i] as u32) < 128
}

/// How many chars of `w` are alphanumeric.
pub open spec fn count_alnum(w: Seq<char>) -> nat
    decreases w.len(),
{
    if w.len() == 0 {
        0
    } else {
        count_alnum(w.drop_last()) + if alphanumeric(w.last()) {
            1nat
        } else {
            0nat
        }
    }
}

/// The weight, in hundredths, of a word with `n` alphanumeric chars.
pub open spec fn base_weight(n: nat) -> nat {
    if n == 0 {
        50
    } else if n == 1 {
        65
    } else if n == 2 {
        80
    } else if n == 3 {
        95
    } else if n == 4 {
        105
    } else if n == 5 {
        115
    } else if n == 6 {
        125
    } else if n == 7 {
        135
    } else if n == 8 {
        145
    } else if n == 9 {
        155
    } else if n == 10 {
        165
    } else {
        (165 + 8 * (n - 10)) as nat
    }
}

/// The extra weight, in hundredths, of a word's final punctuation: a full stop,
/// `!` or `?` gives a longer pause than `,`, `;` or `:`.
pub open spec fn punct_weight(w: Seq<char>) -> nat {
    if w.len() > 0 && (w.last() == '.' || w.last() == '!' || w.last() == '?') {
        35
    } else if w.len() > 0 && (w.last() == ',' || w.last() == ';' || w.last() == ':') {
        18
    } else {
        0
    }
}

/// How long a word takes to sing, relative to other words, in hundredths.
pub open spec fn weight_of(w: Seq<char>) -> nat {
    base_weight(count_alnum(w)) + punct_weight(w)
}

/// The sum of `ws`.
pub open spec fn total(ws: Seq<nat>) -> nat
    decreases ws.len(),
{
    if ws.len() == 0 {
        0
    } else {
        total(ws.drop_last()) + ws.last()
    }
}

/// The sum of the spans `ds`, added up with `Duration::saturating_add`.
pub open spec fn sat_total(ds: Seq<nat>) -> nat
    decreases ds.len(),
{
    if ds.len() == 0 {
        0
    } else {
        clamp_nanos(sat_total(ds.drop_last()) + ds.last())
    }
}

/// The milliseconds a word of weight `w` lasts when there is no time to share:
/// 2.2 ms per hundredth, rounded with halves away from zero (as `f64::round`
/// does), kept within 120 and 700 ms.
pub open spec fn fallback_ms(w: nat) -> nat {
    let ms = round_div(220 * w, 100);
    if ms < 120 {
        120
    } else if ms > 700 {
        700
    } else {
        ms
    }
}

/// The spans that words of weights `ws` last when there is no time to share.
pub open spec fn fallback_durations(ws: Seq<nat>) -> Seq<nat> {
    ws.map_values(|w: nat| (fallback_ms(w) * NANOS_PER_MILLI) as nat)
}

/// The share of `usable` for a word of weight `w` out of `sum`, rounded to the
/// nearest nanosecond (halves to even, as `Duration::from_secs_f64` rounds),
/// and at least a millisecond. It is computed exactly: a share computed in
/// `f64` seconds can differ from it by a nanosecond or so.
pub open spec fn share(usable: nat, w: nat, sum: nat) -> nat {
    let x = round_even(usable * w, sum);
    if x < NANOS_PER_MILLI {
        NANOS_PER_MILLI as nat
    } else {
        x
    }
}

/// The time kept back at the end of a line: 40 ms of lines of half a second or more.
pub open spec fn reserve(d: nat) -> nat {
    if d >= 500 * NANOS_PER_MILLI {
        (40 * NANOS_PER_MILLI) as nat
    } else {
        0
    }
}

/// `raw` with its last span changed so that the spans add up to `usable`,
/// where the last span is long enough for that.
pub open spec fn rebalance(raw: Seq<nat>, usable: nat) -> Seq<nat> {
    let cur = sat_total(raw);
    let last = raw.last();
    if cur < usable {
        raw.update(raw.len() - 1, clamp_nanos((last + (usable - cur)) as nat))
    } else if cur > usable {
        raw.update(
            raw.len() - 1,
            if last >= cur - usable {
                (last - (cur - usable)) as nat
            } else {
                0
            },
        )
    } else {
        raw
    }
}

/// How long each of the words of weights `ws` lasts, given the time
/// `available` for all of them: shares of that time by weight, less a reserve,
/// or fixed spans by weight where no time is known.
pub open spec fn allocate(ws: Seq<nat>, available: Option<nat>) -> Seq<nat> {
    if ws.len() == 0 {
        seq![]
    } else {
        match available {
            Some(d) => if d > 0 && total(ws) > 0 {
                let usable = (d - reserve(d)) as nat;
                rebalance(ws.map_values(|w: nat| share(usable, w, total(ws))), usable)
            } else {
                fallback_durations(ws)
            },
            None => fallback_durations(ws),
        }
    }
}

// ---------------------------------------------------------------------------
// Exact arithmetic.

/// `(a * b) / c` and `(a * b) % c`, for `b <= c`, without overflow.
pub fn mul_div(a: u128, b: u128, c: u128) -> (r: (u128, u128))
    requires
        0 < c,
        b <= c,
    ensures
        r.0 * c + r.1 == a * b,
        r.1 < c,
        r.0 <= a,
{
    let q0 = a / c;
    let r0 = a % c;
    assert(q0 * c + r0 == a && r0 < c) by (nonlinear_arith)
        requires
            q0 == a / c,
            r0 == a % c,
            c > 0,
    ;
    // Long multiplication of r0 by the bits of b, from the top, modulo c.
    let mut quo: u128 = 0;
    let mut rem: u128 = 0;
    let mut top: u128 = 0;
    let mut k: u32 = 128;
    while k > 0
        invariant
            k <= 128,
            r0 < c,
            rem < c,
            k == 128 ==> top == 0,
            k < 128 ==> top == b >> k,
            top <= b,
            quo * c + rem == r0 * top,
            top > 0 ==> quo < top,
            top == 0 ==> quo == 0,
        decreases k,
    {
        let km1: u32 = k - 1;
        let bit: u128 = (b >> km1) & 1;
        let next_top: u128 = b >> km1;
        assert(bit <= 1) by (bit_vector)
            requires
                bit == (b >> km1) & 1,
        ;
        if k == 128 {
            assert(next_top == bit) by (bit_vector)
                requires
                    next_top == b >> km1,
                    bit == (b >> km1) & 1,
                    km1 == 127,
            ;
        } else {
            assert(next_top == 2 * top + bit) by (bit_vector)
                requires
                    top == b >> k,
                    next_top == b >> km1,
                    bit == (b >> km1) & 1,
                    km1 + 1 == k,
                    0 < k < 128,
            ;
        }
        assert(next_top <= b) by (bit_vector)
            requires
                next_top == b >> km1,
        ;
        // Double the remainder.
        let mut carry: u128 = 0;
        let rem2: u128 = if rem >= c - rem {
            carry = 1;
            rem - (c - rem)
        } else {
            rem + rem
        };
        // Add r0 where the bit is set.
        let rem3: u128 = if bit == 1 {
            if rem2 >= c - r0 {
                carry = carry + 1;
                rem2 - (c - r0)
            } else {
                rem2 + r0
            }
        } else {
            rem2
        };
        let ghost c1: int = if rem >= c - rem {
            1
        } else {
            0
        };
        let ghost c2: int = carry - c1;
        assert(c1 == 1 ==> c1 * c == c) by (nonlinear_arith);
        assert(c1 == 0 ==> c1 * c == 0) by (nonlinear_arith);
        assert(c2 == 1 ==> c2 * c == c) by (nonlinear_arith);
        assert(c2 == 0 ==> c2 * c == 0) by (nonlinear_arith);
        assert(rem2 + c1 * c == 2 * rem);
        assert(bit == 1 ==> bit * r0 == r0) by (nonlinear_arith);
        assert(bit == 0 ==> bit * r0 == 0) by (nonlinear_arith);
        assert(bit == 0 || bit == 1);
        assert(rem3 + c2 * c == rem2 + bit * r0);
        assert((2 * quo + carry) * c + rem3 == r0 * next_top) by (nonlinear_arith)
            requires
                quo * c + rem == r0 * top,
                rem2 + c1 * c == 2 * rem,
                rem3 + c2 * c == rem2 + bit * r0,
                carry == c1 + c2,
                next_top == 2 * top + bit,
        ;
        assert(next_top > 0 ==> 2 * quo + carry < next_top) by (nonlinear_arith)
            requires
                (2 * quo + carry) * c + rem3 == r0 * next_top,
                r0 < c,
                rem3 >= 0,
        ;
        assert(next_top == 0 ==> 2 * quo + carry == 0) by (nonlinear_arith)
            requires
                (2 * quo + carry) * c + rem3 == r0 * next_top,
                c > 0,
                rem3 >= 0,
                carry >= 0,
                quo >= 0,
        ;
        quo = 2 * quo + carry;
        rem = rem3;
        top = next_top;
        k = k - 1;
    }
    assert(top == b) by (bit_vector)
        requires
            top == b >> 0u32,
    ;
    assert(q0 * b <= a && q0 * b + quo <= a) by (nonlinear_arith)
        requires
            q0 * c + r0 == a,
            b <= c,
            quo * c + rem == r0 * b,
            r0 < c,
            rem >= 0,
            quo >= 0,
            q0 >= 0,
            c > 0,
    {
        assert(quo * c <= r0 * b);
        assert(r0 * b <= r0 * c);
        assert(quo <= r0);
        assert(q0 * b <= q0 * c);
    }
    let f = q0 * b + quo;
    assert(f * c + rem == a * b) by (nonlinear_arith)
        requires
            f == q0 * b + quo,
            q0 * c + r0 == a,
            quo * c + rem == r0 * b,
    ;
    (f, rem)
}

/// `a * b / c` rounded to the nearest whole number, halves to even, for
/// `b <= c`.
pub fn mul_div_round(a: u128, b: u128, c: u128) -> (r: u128)
    requires
        0 < c,
        b <= c,
        a < u128::MAX,
    ensures
        r == round_even((a * b) as nat, c as nat),
        r <= a,
{
    let (f, rem) = mul_div(a, b, c);
    assert(rem >= c - rem ==> f < a) by (nonlinear_arith)
        requires
            f * c + rem == a * b,
            rem < c,
            b <= c,
            f <= a,
            c > 0,
            rem >= 0,
            b >= 0,
    {
        if rem >= c - rem && f == a {
            assert(a * c + rem == a * b);
            assert(a * b <= a * c);
        }
    }
    proof {
        vstd::arithmetic::div_mod::lemma_fundamental_div_mod_converse(
            (a * b) as int,
            c as int,
            f as int,
            rem as int,
        );
    }
    if rem > c - rem || (rem == c - rem && f % 2 == 1) {
        f + 1
    } else {
        f
    }
}

// ---------------------------------------------------------------------------
// Words and their weights.

/// A word of a lyric line with its weight.
pub struct LyricWord {
    pub text: Vec<char>,
    pub weight: u128,
}

/// The weights of `words`.
pub open spec fn weights(words: Seq<LyricWord>) -> Seq<nat> {
    words.map_values(|w: LyricWord| w.weight as nat)
}

/// The weight of `w`, as `weight_of` says; for an ASCII word, its letters
/// and digits are the chars counted.
pub fn word_weight(w: &Vec<char>) -> (r: u128)
    ensures
        r == weight_of(w@),
        all_ascii(w@) ==> r == base_weight(count_ascii_alnum(w@)) + punct_weight(w@),
        r <= 200 + 8 * w.len(),
{
    let mut n: u128 = 0;
    let mut i: usize = 0;
    while i < w.len()
        invariant
            i <= w.len(),
            n == count_alnum(w@.take(i as int)),
            all_ascii(w@) ==> n == count_ascii_alnum(w@.take(i as int)),
            n <= i,
        decreases w.len() - i,
    {
        assert(w@.take(i + 1).drop_last() =~= w@.take(i as int));
        assert(all_ascii(w@) ==> (w@[i as int] as u32) < 128);
        if is_alphanumeric(w[i]) {
            n = n + 1;
        }
        i = i + 1;
    }
    assert(w@.take(w.len() as int) =~= w@);
    let base: u128 = if n == 0 {
        50
    } else if n == 1 {
        65
    } else if n == 2 {
        80
    } else if n == 3 {
        95
    } else if n == 4 {
        105
    } else if n == 5 {
        115
    } else if n == 6 {
        125
    } else if n == 7 {
        135
    } else if n == 8 {
        145
    } else if n == 9 {
        155
    } else if n == 10 {
        165
    } else {
        165 + 8 * (n - 10)
    };
    let len = w.len();
    let punct: u128 = if len > 0 && (w[len - 1] == '.' || w[len - 1] == '!' || w[len - 1] == '?') {
        35
    } else if len > 0 && (w[len - 1] == ',' || w[len - 1] == ';' || w[len - 1] == ':') {
        18
    } else {
        0
    };
    base + punct
}

#[verifier::rlimit(60)]
/// The words of `s[lo..hi]` with their weights, as `str::split_whitespace`
/// gives the words.
pub fn split_words(s: &Vec<char>, lo: usize, hi: usize) -> (r: Vec<LyricWord>)
    requires
        lo <= hi <= s.len(),
    ensures
        r@.map_values(|w: LyricWord| w.text@) == words_of(s@.subrange(lo as int, hi as int)),
        forall|k: int| 0 <= k < r.len() ==> (#[trigger] r[k]).weight == weight_of(r[k].text@),
        total(weights(r@)) <= 208 * (hi - lo),
{
    let bounds = word_bounds(s, lo, hi);
    let ghost ws = words_of(s@.subrange(lo as int, hi as int));
    let mut r: Vec<LyricWord> = Vec::new();
    let mut k: usize = 0;
    let mut sum: u128 = 0;
    while k < bounds.len()
        invariant
            k <= bounds.len() == ws.len(),
            lo <= hi <= s.len(),
            forall|j: int|
                0 <= j < bounds.len() ==> lo <= (#[trigger] bounds[j]).0 < bounds[j].1 <= hi
                    && s@.subrange(bounds[j].0 as int, bounds[j].1 as int) == ws[j],
            forall|j: int|
                0 <= j < bounds.len() - 1 ==> (#[trigger] bounds[j]).1 <= bounds[j + 1].0,
            r.len() == k,
            forall|j: int| 0 <= j < k ==> (#[trigger] r[j]).text@ == ws[j],
            forall|j: int| 0 <= j < k ==> (#[trigger] r[j]).weight == weight_of(r[j].text@),
            sum == total(weights(r@)),
            k == 0 ==> sum == 0,
            k > 0 ==> sum <= 208 * (bounds[k - 1].1 - lo),
        decreases bounds.len() - k,
    {
        let (a, b) = bounds[k];
        let text = copy_range(s, a, b);
        let weight = word_weight(&text);
        proof {
            if k > 0 {
                assert(bounds[k - 1].1 <= bounds[k as int].0);
            }
            assert(weights(r@.push(LyricWord { text, weight })).drop_last() =~= weights(r@));
        }
        sum = sum + weight;
        r.push(LyricWord { text, weight });
        k = k + 1;
    }
    assert(r@.map_values(|w: LyricWord| w.text@) =~= ws);
    proof {
        if k > 0 {
            assert(bounds[k - 1].1 <= hi);
        }
    }
    r
}

/// The spans `ds` in nanoseconds.
pub open spec fn nanos_of(ds: Seq<Duration>) -> Seq<nat> {
    ds.map_values(|d: Duration| d@)
}

/// The nanoseconds of an optional span.
pub open spec fn opt_nanos(d: Option<Duration>) -> Option<nat> {
    match d {
        Some(v) => Some(v@),
        None => None,
    }
}

pub(crate) proof fn lemma_elem_le_total(ws: Seq<nat>, k: int)
    requires
        0 <= k < ws.len(),
    ensures
        ws[k] <= total(ws),
    decreases ws.len(),
{
    if k < ws.len() - 1 {
        lemma_elem_le_total(ws.drop_last(), k);
    }
}

pub(crate) proof fn lemma_total_step(ws: Seq<nat>, i: int)
    requires
        0 <= i < ws.len(),
    ensures
        total(ws.take(i + 1)) == total(ws.take(i)) + ws[i],
{
    assert(ws.take(i + 1).drop_last() =~= ws.take(i));
}

proof fn lemma_sat_total_step(ds: Seq<nat>, i: int)
    requires
        0 <= i < ds.len(),
    ensures
        sat_total(ds.take(i + 1)) == clamp_nanos(sat_total(ds.take(i)) + ds[i]),
{
    assert(ds.take(i + 1).drop_last() =~= ds.take(i));
}

/// Fixed spans for words when there is no time to share, as `fallback_durations` says.
pub fn fallback_word_durations(words: &Vec<LyricWord>) -> (r: Vec<Duration>)
    requires
        forall|k: int| 0 <= k < words.len() ==> (#[trigger] words[k]).weight <= 1u128 << 100u128,
    ensures
        nanos_of(r@) == fallback_durations(weights(words@)),
        r.len() == words.len(),
{
    let mut r: Vec<Duration> = Vec::new();
    let mut k: usize = 0;
    while k < words.len()
        invariant
            k <= words.len(),
            forall|j: int| 0 <= j < words.len() ==> (#[trigger] words[j]).weight <= 1u128 << 100u128,
            nanos_of(r@) == fallback_durations(weights(words@)).take(k as int),
            r.len() == k,
        decreases words.len() - k,
    {
        let w = words[k].weight;
        assert(w <= 0x10000000000000000000000000u128) by {
            assert(1u128 << 100u128 == 0x10000000000000000000000000u128) by (bit_vector);
        }
        let ms0: u128 = (2 * (220 * w) + 100) / (2 * 100);
        let ms: u64 = if ms0 < 120 {
            120
        } else if ms0 > 700 {
            700
        } else {
            ms0 as u64
        };
        let d = Duration::from_millis(ms);
        assert(fallback_ms(w as nat) == ms);
        assert(weights(words@)[k as int] == w);
        assert(d@ == fallback_durations(weights(words@))[k as int]);
        r.push(d);
        k = k + 1;
        assert(nanos_of(r@) =~= fallback_durations(weights(words@)).take(k as int));
    }
    assert(fallback_durations(weights(words@)).take(k as int) =~= fallback_durations(
        weights(words@),
    ));
    r
}

/// How long each word lasts, given the time `available` for all of them, as
/// `allocate` says.
pub fn allocate_word_timing(words: &Vec<LyricWord>, available: Option<Duration>) -> (r: Vec<
    Duration,
>)
    requires
        total(weights(words@)) <= 1u128 << 100u128,
    ensures
        nanos_of(r@) == allocate(weights(words@), opt_nanos(available)),
        r.len() == words.len(),
{
    let ghost ws = weights(words@);
    proof {
        assert forall|k: int| 0 <= k < words.len() implies (#[trigger] words[k]).weight <= 1u128
            << 100u128 by {
            assert(ws[k] == words[k].weight);
            lemma_elem_le_total(ws, k);
        }
    }
    if words.len() == 0 {
        let r: Vec<Duration> = Vec::new();
        assert(nanos_of(r@) =~= Seq::<nat>::empty());
        return r;
    }
    let d = match available {
        Some(d) => {
            if d.is_zero() {
                return fallback_word_durations(words);
            }
            d
        },
        None => {
            return fallback_word_durations(words);
        },
    };
    // The total weight.
    let mut sum: u128 = 0;
    let mut i: usize = 0;
    while i < words.len()
        invariant
            i <= words.len(),
            ws == weights(words@),
            total(ws) <= 1u128 << 100u128,
            sum == total(ws.take(i as int)),
        decreases words.len() - i,
    {
        proof {
            lemma_total_step(ws, i as int);
            lemma_total_prefix_le(ws, (i + 1) as int);
        }
        sum = sum + words[i].weight;
        i = i + 1;
    }
    assert(ws.take(i as int) =~= ws);
    if sum == 0 {
        return fallback_word_durations(words);
    }
    let half_second = Duration::from_millis(500);
    let kept_back = if half_second.le(&d) {
        Duration::from_millis(40)
    } else {
        Duration::zero()
    };
    let usable = d.saturating_sub(kept_back);
    let u = usable.as_nanos();
    let ghost usable_n = (d@ - reserve(d@)) as nat;
    assert(u == usable_n);
    let ghost raw = ws.map_values(|w: nat| share(usable_n, w, total(ws)));
    let mut r: Vec<Duration> = Vec::new();
    let mut k: usize = 0;
    while k < words.len()
        invariant
            k <= words.len(),
            ws == weights(words@),
            sum == total(ws),
            sum > 0,
            u == usable_n,
            u <= MAX_NANOS,
            raw == ws.map_values(|w: nat| share(usable_n, w, total(ws))),
            nanos_of(r@) == raw.take(k as int),
            r.len() == k,
        decreases words.len() - k,
    {
        proof {
            lemma_elem_le_total(ws, k as int);
        }
        let x = mul_div_round(u, words[k].weight, sum);
        let y = if x < NANOS_PER_MILLI {
            NANOS_PER_MILLI
        } else {
            x
        };
        r.push(Duration::from_nanos_saturating(y));
        k = k + 1;
        assert(nanos_of(r@) =~= raw.take(k as int));
    }
    assert(raw.take(k as int) =~= raw);
    // Add the spans up.
    let mut cur = Duration::zero();
    let mut j: usize = 0;
    while j < r.len()
        invariant
            j <= r.len(),
            cur@ == sat_total(nanos_of(r@).take(j as int)),
        decreases r.len() - j,
    {
        proof {
            lemma_sat_total_step(nanos_of(r@), j as int);
        }
        cur = cur.saturating_add(r[j]);
        j = j + 1;
    }
    assert(nanos_of(r@).take(j as int) =~= nanos_of(r@));
    let n = r.len();
    let last = r[n - 1];
    let ghost before = r@;
    if cur.lt(&usable) {
        r.set(n - 1, last.saturating_add(usable.saturating_sub(cur)));
        assert(nanos_of(r@) =~= nanos_of(before).update(n - 1, clamp_nanos((last@ + (usable_n
            - cur@)) as nat)));
    } else if usable.lt(&cur) {
        r.set(n - 1, last.saturating_sub(cur.saturating_sub(usable)));
        assert(nanos_of(r@) =~= nanos_of(before).update(
            n - 1,
            if last@ >= cur@ - usable_n {
                (last@ - (cur@ - usable_n)) as nat
            } else {
                0
            },
        ));
    }
    r
}

pub(crate) proof fn lemma_total_prefix_le(ws: Seq<nat>, i: int)
    requires
        0 <= i <= ws.len(),
    ensures
        total(ws.take(i)) <= total(ws),
    decreases ws.len() - i,
{
    if i < ws.len() {
        lemma_total_prefix_le(ws, i + 1);
        lemma_total_step(ws, i);
    } else {
        assert(ws.take(i) =~= ws);
    }
}

} // verus!
