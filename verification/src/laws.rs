use vstd::prelude::*;

use crate::duration::{MAX_NANOS, NANOS_PER_MILLI};
use crate::lrc::{
    dedup_lines, same_line, enhanced_words, line_lrc_words, group_words, group_span, group_steps,
    enhanced_scan, enhanced_of_lines,
};
use crate::lyrics::{LineView, WordView, estimate_words, line_words};
use crate::order::{sorted_by_start, lemma_sort_sorted, Keyed};
use crate::plain::{plain_words, nonblank_lines, spread_lines};
use crate::render::{glyph_line, glyph_cell, row_chars, scaled_row};
use crate::timestamp::round_even;
use crate::text::{is_ws, words_of, lemma_words_clean, find_char, lemma_find_char, lines_of, trim};
use crate::timestamp::timestamp_nanos;
use crate::timing::{
    allocate, base_weight, fallback_ms, rebalance, sat_total, share, total, reserve,
    fallback_durations, weight_of, lemma_elem_le_total, lemma_total_prefix_le, lemma_total_step,
};

verus! {

/// The words of lyrics from any source come in order of their start: timed
/// words and timed lines of a lyricsfile, line LRC, enhanced LRC and plain
/// text alike.
pub proof fn law_words_in_order(
    file_lines: Seq<crate::lyricsfile::LyricsFileLine>,
    lines: Seq<LineView>,
    s: Seq<char>,
    d: Option<nat>,
)
    ensures
        sorted_by_start(crate::order::sort_by_start(crate::lyricsfile::file_words(file_lines))),
        sorted_by_start(estimate_words(lines)),
        sorted_by_start(line_lrc_words(s)),
        sorted_by_start(enhanced_words(s)),
        sorted_by_start(plain_words(s, d)),
{
    lemma_sort_sorted(crate::lyricsfile::file_words(file_lines));
    lemma_sort_sorted(crate::lyrics::timed_words(lines, lines.len() as int));
    let l = crate::order::sort_by_start(crate::lrc::lrc_entries(s));
    let u = dedup_lines(l);
    lemma_sort_sorted(crate::lyrics::timed_words(u, u.len() as int));
    lemma_sort_sorted(crate::lrc::enhanced_of_lines(crate::text::lines_of(s)));
    let ls = crate::plain::nonblank_lines(crate::text::lines_of(s));
    match d {
        Some(dd) => {
            let sp = crate::plain::spread_lines(ls, dd);
            lemma_sort_sorted(crate::lyrics::timed_words(sp, sp.len() as int));
        },
        None => {
            let pl = crate::plain::paced_lines(ls);
            lemma_sort_sorted(crate::lyrics::timed_words(pl, pl.len() as int));
        },
    }
}

proof fn lemma_sat_total_bounded(ds: Seq<nat>)
    ensures
        sat_total(ds) <= MAX_NANOS,
    decreases ds.len(),
{
    if ds.len() > 0 {
        lemma_sat_total_bounded(ds.drop_last());
    }
}

proof fn lemma_sat_total_grows(ds: Seq<nat>, j: int, k: int)
    requires
        0 <= j <= k <= ds.len(),
    ensures
        sat_total(ds.take(j)) <= sat_total(ds.take(k)),
    decreases k - j,
{
    if j < k {
        lemma_sat_total_grows(ds, j, k - 1);
        assert(ds.take(k).drop_last() =~= ds.take(k - 1));
        lemma_sat_total_bounded(ds.take(k - 1));
    }
}

/// Within a line, words start in order, the first at the start of the line.
pub proof fn law_line_words_in_order(lines: Seq<LineView>, i: int, j: int, k: int)
    requires
        0 <= i < lines.len(),
        0 <= j <= k < line_words(lines, i).len(),
    ensures
        line_words(lines, i)[j].start <= line_words(lines, i)[k].start,
        lines[i].start <= MAX_NANOS ==> line_words(lines, i)[0].start == lines[i].start,
{
    let ws = crate::text::words_of(lines[i].text);
    let alloc = allocate(
        ws.map_values(|w: Seq<char>| crate::timing::weight_of(w)),
        crate::lyrics::line_span(lines, i),
    );
    lemma_sat_total_grows(alloc, j, k);
    assert(alloc.take(0) =~= Seq::<nat>::empty());
}

/// Where a line's time is known, its words' spans add up to that time less
/// the reserve, as long as the shares add up without reaching the longest
/// `Duration` and the last share can absorb what the rounding added.
pub proof fn law_allocation_fills_span(ws: Seq<nat>, d: nat)
    requires
        ws.len() > 0,
        0 < d <= MAX_NANOS,
        total(ws) > 0,
        ({
            let usable = (d - reserve(d)) as nat;
            let raw = ws.map_values(|w: nat| share(usable, w, total(ws)));
            &&& sat_total(raw.drop_last()) + raw.last() <= MAX_NANOS
            &&& sat_total(raw) > usable ==> raw.last() >= sat_total(raw) - usable
        }),
    ensures
        sat_total(allocate(ws, Some(d))) == d - reserve(d),
{
    let usable = (d - reserve(d)) as nat;
    let raw = ws.map_values(|w: nat| share(usable, w, total(ws)));
    let r = rebalance(raw, usable);
    let n = raw.len();
    assert(r.drop_last() =~= raw.drop_last());
    assert(raw.len() > 0);
    lemma_sat_total_bounded(raw.drop_last());
}

/// Rounding `a / b` to the nearest whole number moves it by at most a half.
proof fn lemma_round_even_close(a: nat, b: nat)
    requires
        b > 0,
    ensures
        2 * b * round_even(a, b) <= 2 * a + b,
        2 * b * round_even(a, b) + b >= 2 * a,
{
    let q = a / b;
    let r = a % b;
    assert(a == b * q + r && 0 <= r < b) by (nonlinear_arith)
        requires
            b > 0,
            q == a / b,
            r == a % b,
    ;
    assert(2 * b * (q + 1) == 2 * (b * q) + 2 * b) by (nonlinear_arith);
    assert(2 * b * q == 2 * (b * q)) by (nonlinear_arith);
}

/// The sum of the rounded shares of the first `k` words stays within `k`
/// halves of the exact shares' sum.
proof fn lemma_shares_close(ws: Seq<nat>, raw: Seq<nat>, usable: nat, w: nat, k: int)
    requires
        w > 0,
        0 <= k <= ws.len(),
        raw.len() == ws.len(),
        forall|i: int| 0 <= i < ws.len() ==> #[trigger] raw[i] == round_even(usable * ws[i], w),
    ensures
        2 * w * total(raw.take(k)) <= 2 * usable * total(ws.take(k)) + k * w,
        2 * w * total(raw.take(k)) + k * w >= 2 * usable * total(ws.take(k)),
    decreases k,
{
    if k > 0 {
        lemma_shares_close(ws, raw, usable, w, k - 1);
        assert(raw.take(k).drop_last() =~= raw.take(k - 1));
        assert(ws.take(k).drop_last() =~= ws.take(k - 1));
        let x = ws[k - 1];
        let y = raw[k - 1];
        lemma_round_even_close(usable * x, w);
        let t0 = total(raw.take(k - 1));
        let s0 = total(ws.take(k - 1));
        assert(total(raw.take(k)) == t0 + y);
        assert(total(ws.take(k)) == s0 + x);
        assert(2 * w * (t0 + y) <= 2 * usable * (s0 + x) + k * w && 2 * w * (t0 + y) + k * w >= 2
            * usable * (s0 + x)) by (nonlinear_arith)
            requires
                2 * w * t0 <= 2 * usable * s0 + (k - 1) * w,
                2 * w * t0 + (k - 1) * w >= 2 * usable * s0,
                2 * w * y <= 2 * (usable * x) + w,
                2 * w * y + w >= 2 * (usable * x),
        ;
        assert(2 * w * total(raw.take(k)) <= 2 * usable * total(ws.take(k)) + k * w);
    } else {
        assert(raw.take(0) =~= Seq::<nat>::empty());
        assert(ws.take(0) =~= Seq::<nat>::empty());
        assert(total(raw.take(0)) == 0);
        assert(total(ws.take(0)) == 0);
        assert(2 * w * 0 <= 2 * usable * 0 + 0 * w);
    }
}

/// Added up with saturation, spans whose plain sum fits give that sum.
proof fn lemma_sat_total_exact(ds: Seq<nat>)
    requires
        total(ds) <= MAX_NANOS,
    ensures
        sat_total(ds) == total(ds),
    decreases ds.len(),
{
    if ds.len() > 0 {
        lemma_sat_total_exact(ds.drop_last());
    }
}

/// Where a line's time is known and every word's share of what is left after
/// the reserve comes, rounded, to at least a millisecond, the words' spans add
/// up to exactly that time less the reserve, as long as the rounded shares
/// overshoot it by no more than the last share (which the last word then
/// gives back) and add up within the longest `Duration`; past that, the last
/// span is cut to nothing and the sum overshoots: the condition is the exact
/// one. Any number of words.
pub proof fn law_allocation_sums_to_usable(ws: Seq<nat>, d: nat)
    requires
        0 < ws.len(),
        0 < d <= MAX_NANOS,
        total(ws) > 0,
        ({
            let usable = (d - reserve(d)) as nat;
            let rs = rounded_shares(ws, usable);
            &&& forall|i: int| 0 <= i < ws.len() ==> #[trigger] rs[i] >= NANOS_PER_MILLI
            &&& total(rs) <= usable + rs.last()
            &&& total(rs) <= MAX_NANOS
        }),
    ensures
        sat_total(allocate(ws, Some(d))) == d - reserve(d),
{
    let usable = (d - reserve(d)) as nat;
    let w = total(ws);
    let n = ws.len();
    let rs = rounded_shares(ws, usable);
    let raw = ws.map_values(|x: nat| share(usable, x, w));
    assert forall|i: int| 0 <= i < ws.len() implies #[trigger] raw[i] == rs[i] by {
        assert(rs[i] >= NANOS_PER_MILLI);
    }
    assert(raw =~= rs);
    let cur = total(raw);
    let last = raw.last();
    assert(total(raw) == total(raw.drop_last()) + last);
    assert(total(raw.drop_last()) <= usable);
    assert(usable <= MAX_NANOS);
    lemma_sat_total_exact(raw.drop_last());
    lemma_sat_total_exact(raw);
    law_allocation_fills_span(ws, d);
}

/// The shares of a line of up to two million words overshoot what they
/// share by no more than a millisecond, so by no more than the last share.
pub proof fn law_allocation_short_lines(ws: Seq<nat>, d: nat)
    requires
        0 < ws.len() <= 2_000_000,
        0 < d <= MAX_NANOS,
        total(ws) > 0,
        forall|i: int|
            0 <= i < ws.len() ==> round_even((d - reserve(d)) as nat * ws[i], total(ws))
                >= NANOS_PER_MILLI,
    ensures
        sat_total(allocate(ws, Some(d))) == d - reserve(d),
{
    let usable = (d - reserve(d)) as nat;
    let w = total(ws);
    let n = ws.len();
    let rs = rounded_shares(ws, usable);
    assert forall|i: int| 0 <= i < ws.len() implies #[trigger] rs[i] == round_even(usable * ws[i], w)
        by {}
    lemma_shares_close(ws, rs, usable, w, n as int);
    assert(rs.take(n as int) =~= rs);
    assert(ws.take(n as int) =~= ws);
    let cur = total(rs);
    assert(cur <= usable + 1_000_000) by (nonlinear_arith)
        requires
            2 * w * cur <= 2 * usable * w + n * w,
            n <= 2_000_000,
            w > 0,
    {
        assert(2 * w * cur <= w * (2 * usable + n));
        assert(2 * cur <= 2 * usable + n);
    }
    assert(usable + 1_000_000 <= MAX_NANOS);
    assert(rs.last() == rs[n - 1]);
    law_allocation_sums_to_usable(ws, d);
}

/// The words of an enhanced LRC group of text `word` stamped `ts` (within the
/// longest `Duration`) are nonempty and hold no whitespace; the first starts
/// at `ts` (so a group of one word starts exactly there) and none earlier;
/// and where the group's word count times its total weight stays under eight
/// billion (so in any line of up to 6,000 chars), every word starts before
/// `ts` plus 80 ms. Longer groups can overrun: 12,801 words `a` put the last
/// at `ts` plus exactly 80 ms, the rounded steps adding up.
pub proof fn law_group_words(word: Seq<char>, ts: nat)
    requires
        words_of(word).len() > 0,
        ts <= MAX_NANOS,
    ensures
        ({
            let g = group_words(word, ts);
            &&& g.len() == words_of(word).len()
            &&& forall|k: int|
                0 <= k < g.len() ==> #[trigger] g[k].text.len() > 0 && forall|j: int|
                    0 <= j < g[k].text.len() ==> !is_ws(#[trigger] g[k].text[j])
            &&& g[0].start == ts
            &&& forall|k: int| 0 <= k < g.len() ==> #[trigger] g[k].start >= ts
            &&& words_of(word).len() * total(words_of(word).map_values(|w: Seq<char>| weight_of(w)))
                < 8_000_000_000 ==> forall|k: int|
                0 <= k < g.len() ==> #[trigger] g[k].start < ts + group_span()
        }),
{
    let split = words_of(word);
    let n = split.len();
    let g = group_words(word, ts);
    lemma_words_clean(word);
    if n == 1 {
        return;
    }
    let ws = split.map_values(|w: Seq<char>| weight_of(w));
    let steps = group_steps(ws);
    let big_w = total(ws);
    assert forall|i: int| 0 <= i < n implies #[trigger] ws[i] >= 50 by {
        law_weight_grows(0, crate::timing::count_alnum(split[i]));
    }
    lemma_elem_le_total(ws, 0);
    assert(big_w > 0);
    assert forall|i: int| 0 <= i < n implies #[trigger] steps[i] == round_even(
        group_span() * ws[i],
        big_w,
    ) by {}
    assert forall|k: int| 0 <= k < n implies #[trigger] g[k].text.len() > 0 && forall|j: int|
        0 <= j < g[k].text.len() ==> !is_ws(#[trigger] g[k].text[j]) by {
        assert(g[k].text == split[k]);
    }
    assert(steps.take(0) =~= Seq::<nat>::empty());
    assert forall|k: int| 0 <= k < n implies #[trigger] g[k].start >= ts by {
        assert(g[k].start == crate::duration::clamp_nanos(ts + sat_total(steps.take(k))));
    }
    if n * big_w < 8_000_000_000 {
        assert forall|k: int| 0 <= k < n implies #[trigger] g[k].start < ts + group_span() by {
            lemma_shares_close(ws, steps, group_span(), big_w, k);
            let pre = ws.take(n - 1);
            assert(pre.take(k) =~= ws.take(k));
            lemma_total_prefix_le(pre, k);
            assert(ws.drop_last() =~= pre);
            assert(big_w == total(pre) + ws[n - 1]);
            let t = total(steps.take(k));
            let tw = total(ws.take(k));
            assert(tw + 50 <= big_w);
            assert(t < group_span()) by (nonlinear_arith)
                requires
                    2 * big_w * t <= 2 * group_span() * tw + k * big_w,
                    tw + 50 <= big_w,
                    k < n,
                    n * big_w < 8_000_000_000,
                    big_w > 0,
                    group_span() == 80_000_000,
            {
                assert(k * big_w <= n * big_w);
                assert(2 * group_span() * tw <= 2 * group_span() * (big_w - 50));
                assert(2 * big_w * t < 2 * big_w * group_span());
            }
            lemma_sat_total_exact(steps.take(k));
            assert(g[k].start == crate::duration::clamp_nanos(ts + sat_total(steps.take(k))));
        }
    }
}

/// Whether `w` is a nonempty word without whitespace.
pub open spec fn clean_word(w: WordView) -> bool {
    &&& w.text.len() > 0
    &&& forall|j: int| 0 <= j < w.text.len() ==> !is_ws(#[trigger] w.text[j])
}

proof fn lemma_group_clean(word: Seq<char>, ts: nat)
    ensures
        forall|k: int|
            0 <= k < group_words(word, ts).len() ==> clean_word(#[trigger] group_words(word, ts)[k]),
{
    lemma_words_clean(word);
    let g = group_words(word, ts);
    assert forall|k: int| 0 <= k < g.len() implies clean_word(#[trigger] g[k]) by {
        assert(g[k].text == words_of(word)[k]);
    }
}

proof fn lemma_scan_clean(r: Seq<char>)
    ensures
        forall|k: int| 0 <= k < enhanced_scan(r).len() ==> clean_word(#[trigger] enhanced_scan(r)[k]),
    decreases r.len(),
{
    lemma_find_char(r, '<');
    if let Some(o) = find_char(r, '<') {
        let after = r.skip(o + 1);
        lemma_find_char(after, '>');
        if let Some(c) = find_char(after, '>') {
            match timestamp_nanos(after.take(c)) {
                None => {
                    lemma_scan_clean(after);
                    assert(enhanced_scan(r) == enhanced_scan(after));
                },
                Some(ts) => {
                    let after_ts = after.skip(c + 1);
                    let word_end = match find_char(after_ts, '<') {
                        Some(e) => e,
                        None => after_ts.len() as int,
                    };
                    let word = trim(after_ts.take(word_end));
                    let here = if word.len() == 0 {
                        seq![]
                    } else {
                        group_words(word, ts)
                    };
                    lemma_scan_clean(after_ts);
                    lemma_group_clean(word, ts);
                    let rest = enhanced_scan(after_ts);
                    assert(enhanced_scan(r) == here + rest);
                    assert forall|k: int| 0 <= k < (here + rest).len() implies clean_word(
                        #[trigger] (here + rest)[k],
                    ) by {
                        if k >= here.len() {
                            assert((here + rest)[k] == rest[k - here.len()]);
                        }
                    }
                },
            }
        } else {
            assert(enhanced_scan(r).len() == 0);
        }
    } else {
        assert(enhanced_scan(r).len() == 0);
    }
}

proof fn lemma_lines_clean(ls: Seq<Seq<char>>)
    ensures
        forall|k: int|
            0 <= k < enhanced_of_lines(ls).len() ==> clean_word(#[trigger] enhanced_of_lines(ls)[k]),
    decreases ls.len(),
{
    if ls.len() > 0 {
        lemma_lines_clean(ls.drop_last());
        lemma_scan_clean(ls.last());
        let a = enhanced_of_lines(ls.drop_last());
        let b = enhanced_scan(ls.last());
        assert forall|k: int| 0 <= k < (a + b).len() implies clean_word(#[trigger] (a + b)[k]) by {
            if k >= a.len() {
                assert((a + b)[k] == b[k - a.len()]);
            }
        }
    }
}

/// Every word that enhanced LRC text gives is nonempty and holds no
/// whitespace.
pub proof fn law_enhanced_words_clean(s: Seq<char>)
    ensures
        forall|k: int|
            0 <= k < enhanced_words(s).len() ==> clean_word(#[trigger] enhanced_words(s)[k]),
{
    broadcast use vstd::seq_lib::group_to_multiset_ensures;
    let e = enhanced_of_lines(lines_of(s));
    lemma_lines_clean(lines_of(s));
    crate::order::lemma_sort_permutes(e);
    let sorted = enhanced_words(s);
    assert forall|k: int| 0 <= k < sorted.len() implies clean_word(#[trigger] sorted[k]) by {
        let x = sorted[k];
        assert(sorted.contains(x));
        assert(sorted.to_multiset().count(x) > 0);
        assert(e.contains(x));
        let i = choose|i: int| 0 <= i < e.len() && e[i] == x;
        assert(clean_word(e[i]));
    }
}

/// The number of words in the texts of `lines`.
pub open spec fn token_count(lines: Seq<LineView>) -> nat
    decreases lines.len(),
{
    if lines.len() == 0 {
        0
    } else {
        token_count(lines.drop_last()) + words_of(lines.last().text).len()
    }
}

proof fn lemma_timed_len(lines: Seq<LineView>, n: int)
    requires
        0 <= n <= lines.len(),
    ensures
        crate::lyrics::timed_words(lines, n).len() == token_count(lines.take(n)),
    decreases n,
{
    if n > 0 {
        lemma_timed_len(lines, n - 1);
        assert(lines.take(n).drop_last() =~= lines.take(n - 1));
        assert(lines.take(n).last() == lines[n - 1]);
    } else {
        assert(lines.take(0) =~= Seq::<LineView>::empty());
    }
}

proof fn lemma_timed_contains(lines: Seq<LineView>, n: int, i: int, k: int)
    requires
        0 <= i < n <= lines.len(),
        0 <= k < line_words(lines, i).len(),
    ensures
        crate::lyrics::timed_words(lines, n).contains(line_words(lines, i)[k]),
    decreases n,
{
    let a = crate::lyrics::timed_words(lines, n - 1);
    let b = line_words(lines, n - 1);
    let x = line_words(lines, i)[k];
    if i == n - 1 {
        assert((a + b)[a.len() + k] == x);
    } else {
        lemma_timed_contains(lines, n - 1, i, k);
        let j = choose|j: int| 0 <= j < a.len() && a[j] == x;
        assert((a + b)[j] == x);
    }
}

/// The words that timed lines give: as many as the lines' texts hold, and
/// for each line with a word, one at the line's start (where it fits in a
/// `Duration`) that carries the line's first word.
pub proof fn law_estimate_tokens(lines: Seq<LineView>)
    ensures
        estimate_words(lines).len() == token_count(lines),
        forall|i: int|
            0 <= i < lines.len() && words_of(lines[i].text).len() > 0 && lines[i].start
                <= MAX_NANOS ==> estimate_words(lines).contains(
                WordView { text: words_of(#[trigger] lines[i].text)[0], start: lines[i].start },
            ),
{
    broadcast use vstd::seq_lib::group_to_multiset_ensures;
    let n = lines.len() as int;
    let t = crate::lyrics::timed_words(lines, n);
    lemma_timed_len(lines, n);
    assert(lines.take(n) =~= lines);
    lemma_sort_sorted(t);
    crate::order::lemma_sort_permutes(t);
    assert forall|i: int|
        0 <= i < lines.len() && words_of(lines[i].text).len() > 0 && lines[i].start
            <= MAX_NANOS implies estimate_words(lines).contains(
        WordView { text: words_of(#[trigger] lines[i].text)[0], start: lines[i].start },
    ) by {
        let ws = words_of(lines[i].text);
        let alloc = allocate(ws.map_values(|w: Seq<char>| weight_of(w)), crate::lyrics::line_span(lines, i));
        assert(alloc.take(0) =~= Seq::<nat>::empty());
        let x = line_words(lines, i)[0];
        assert(x == WordView { text: ws[0], start: lines[i].start });
        lemma_timed_contains(lines, n, i, 0);
        assert(t.to_multiset().count(x) > 0);
        assert(estimate_words(lines).to_multiset().count(x) > 0);
    }
}

/// Line LRC gives as many words as its timed lines hold, once sorted and
/// rid of repeats, and for each such line with a word, one at the line's
/// time (where it fits in a `Duration`) carrying the line's first word.
pub proof fn law_line_lrc_tokens(s: Seq<char>)
    ensures
        ({
            let u = dedup_lines(crate::order::sort_by_start(crate::lrc::lrc_entries(s)));
            &&& line_lrc_words(s).len() == token_count(u)
            &&& forall|i: int|
                0 <= i < u.len() && words_of(u[i].text).len() > 0 && u[i].start <= MAX_NANOS
                    ==> line_lrc_words(s).contains(
                    WordView { text: words_of(#[trigger] u[i].text)[0], start: u[i].start },
                )
        }),
{
    let u = dedup_lines(crate::order::sort_by_start(crate::lrc::lrc_entries(s)));
    law_estimate_tokens(u);
}

/// The rounded shares of `usable` that words of weights `ws` get.
pub open spec fn rounded_shares(ws: Seq<nat>, usable: nat) -> Seq<nat> {
    ws.map_values(|x: nat| round_even(usable * x, total(ws)))
}

/// Where line `i` lasts `g` nanoseconds (ending within the longest
/// `Duration`), each of its words' shares of what is left after the reserve
/// comes, rounded, to at least a millisecond, and the shares of all its words
/// but the last add up to less than `g`, its words start in strictly rising
/// order, the first at the line's start, all before the line's time is up.
/// (Where those shares reach `g`, the last word starts at or after the
/// line's end: the condition is the exact one.)
pub proof fn law_line_words_before_end(lines: Seq<LineView>, i: int, g: nat)
    requires
        0 <= i < lines.len(),
        crate::lyrics::line_span(lines, i) == Some(g),
        lines[i].start + g <= MAX_NANOS,
        words_of(lines[i].text).len() > 0,
        ({
            let ws = words_of(lines[i].text).map_values(|w: Seq<char>| weight_of(w));
            let usable = (g - reserve(g)) as nat;
            &&& forall|j: int|
                0 <= j < ws.len() ==> round_even(usable * ws[j], total(ws)) >= NANOS_PER_MILLI
            &&& total(rounded_shares(ws, usable).drop_last()) < g
        }),
    ensures
        line_words(lines, i)[0].start == lines[i].start,
        forall|k: int|
            0 <= k < line_words(lines, i).len() ==> lines[i].start <= #[trigger] line_words(
                lines,
                i,
            )[k].start < lines[i].start + g,
        forall|j: int, k: int|
            0 <= j < k < line_words(lines, i).len() ==> #[trigger] line_words(lines, i)[j].start
                < #[trigger] line_words(lines, i)[k].start,
{
    let t = lines[i].start;
    let split = words_of(lines[i].text);
    let n = split.len();
    let ws = split.map_values(|w: Seq<char>| weight_of(w));
    let big_w = total(ws);
    assert forall|j: int| 0 <= j < n implies #[trigger] ws[j] >= 50 by {
        law_weight_grows(0, crate::timing::count_alnum(split[j]));
    }
    lemma_elem_le_total(ws, 0);
    let usable = (g - reserve(g)) as nat;
    let raw = ws.map_values(|x: nat| share(usable, x, big_w));
    assert forall|j: int| 0 <= j < n implies #[trigger] raw[j] == round_even(usable * ws[j], big_w)
        by {
        assert(round_even(usable * ws[j], big_w) >= NANOS_PER_MILLI);
    }
    assert(raw =~= rounded_shares(ws, usable));
    let alloc = allocate(ws, Some(g));
    assert(g > 0);
    assert(alloc == rebalance(raw, usable));
    assert forall|k: int| 0 <= k <= n - 1 implies #[trigger] alloc.take(k) == raw.take(k) by {
        assert(alloc.take(k) =~= raw.take(k));
    }
    let pre = raw.take(n - 1);
    assert(pre =~= raw.drop_last());
    assert forall|k: int| 0 <= k < n implies #[trigger] sat_total(alloc.take(k)) == total(raw.take(k))
        && total(raw.take(k)) < g by {
        assert(pre.take(k) =~= raw.take(k));
        lemma_total_prefix_le(pre, k);
        lemma_sat_total_exact(raw.take(k));
        assert(alloc.take(k) == raw.take(k));
    }
    let lw = line_words(lines, i);
    assert(lw.len() == n);
    assert forall|k: int| 0 <= k < n implies #[trigger] lw[k].start == t + total(raw.take(k)) by {
        assert(lw[k].start == crate::duration::clamp_nanos(t + sat_total(alloc.take(k))));
    }
    assert(raw.take(0) =~= Seq::<nat>::empty());
    assert forall|j: int, k: int| 0 <= j < k < n implies #[trigger] lw[j].start
        < #[trigger] lw[k].start by {
        lemma_total_step(raw, j);
        assert(raw.take(k).take(j + 1) =~= raw.take(j + 1));
        lemma_total_prefix_le(raw.take(k), j + 1);
    }
}

/// Where line `i` lasts `g` nanoseconds and each of its words' shares of what
/// is left after the reserve comes, rounded, to at least a millisecond (for
/// lines of fewer than two million words, ending within the longest
/// `Duration`), its words start in strictly rising order, the first at the
/// line's start, all before the line's time is up.
pub proof fn law_line_words_within(lines: Seq<LineView>, i: int, g: nat)
    requires
        0 <= i < lines.len(),
        crate::lyrics::line_span(lines, i) == Some(g),
        g > 0,
        lines[i].start + g <= MAX_NANOS,
        0 < words_of(lines[i].text).len() < 2_000_000,
        ({
            let ws = words_of(lines[i].text).map_values(|w: Seq<char>| weight_of(w));
            forall|j: int|
                0 <= j < ws.len() ==> round_even((g - reserve(g)) as nat * ws[j], total(ws))
                    >= NANOS_PER_MILLI
        }),
    ensures
        line_words(lines, i)[0].start == lines[i].start,
        forall|k: int|
            0 <= k < line_words(lines, i).len() ==> lines[i].start <= #[trigger] line_words(
                lines,
                i,
            )[k].start < lines[i].start + g,
        forall|j: int, k: int|
            0 <= j < k < line_words(lines, i).len() ==> #[trigger] line_words(lines, i)[j].start
                < #[trigger] line_words(lines, i)[k].start,
{
    let split = words_of(lines[i].text);
    let n = split.len();
    let ws = split.map_values(|w: Seq<char>| weight_of(w));
    let big_w = total(ws);
    assert forall|j: int| 0 <= j < n implies #[trigger] ws[j] >= 50 by {
        law_weight_grows(0, crate::timing::count_alnum(split[j]));
    }
    lemma_elem_le_total(ws, 0);
    let usable = (g - reserve(g)) as nat;
    let raw = rounded_shares(ws, usable);
    assert forall|j: int| 0 <= j < n implies #[trigger] raw[j] == round_even(usable * ws[j], big_w)
        by {}
    lemma_shares_close(ws, raw, usable, big_w, n as int);
    assert(raw.take(n as int) =~= raw);
    assert(ws.take(n as int) =~= ws);
    let cur = total(raw);
    assert(cur <= usable + 999_999) by (nonlinear_arith)
        requires
            2 * big_w * cur <= 2 * usable * big_w + n * big_w,
            n <= 1_999_999,
            big_w > 0,
    {
        assert(big_w * (2 * cur) <= big_w * (2 * usable + n));
        assert(2 * cur <= 2 * usable + n);
    }
    let last = raw[n - 1];
    assert(cur == total(raw.drop_last()) + last);
    assert(last >= NANOS_PER_MILLI);
    assert(total(raw.drop_last()) < g);
    law_line_words_before_end(lines, i, g);
}

proof fn lemma_dedup_from(s: Seq<LineView>)
    ensures
        forall|k: int| 0 <= k < dedup_lines(s).len() ==> s.contains(#[trigger] dedup_lines(s)[k]),
    decreases s.len(),
{
    if s.len() > 0 {
        lemma_dedup_from(s.drop_last());
        let d = dedup_lines(s.drop_last());
        assert forall|k: int| 0 <= k < dedup_lines(s).len() implies s.contains(
            #[trigger] dedup_lines(s)[k],
        ) by {
            let x = dedup_lines(s)[k];
            if k < d.len() {
                assert(x == d[k]);
                assert(s.drop_last().contains(x));
                let j = choose|j: int| 0 <= j < s.drop_last().len() && s.drop_last()[j] == x;
                assert(s[j] == x);
            } else {
                assert(x == s.last());
                assert(s[s.len() - 1] == x);
            }
        }
    }
}

proof fn lemma_entries_open(ls: Seq<Seq<char>>)
    ensures
        forall|k: int|
            0 <= k < crate::lrc::entries_of_lines(ls).len() ==> (
            #[trigger] crate::lrc::entries_of_lines(ls)[k]).end is None,
    decreases ls.len(),
{
    if ls.len() > 0 {
        lemma_entries_open(ls.drop_last());
        let a = crate::lrc::entries_of_lines(ls.drop_last());
        let b = crate::lrc::lrc_line_entries(ls.last());
        assert forall|k: int| 0 <= k < (a + b).len() implies (#[trigger] (a + b)[k]).end is None by {
            if k >= a.len() {
                assert((a + b)[k] == b[k - a.len()]);
            }
        }
    }
}

/// The timed lines of LRC text, sorted and rid of repeats, have no end of
/// their own.
proof fn lemma_lrc_lines_open(s: Seq<char>)
    ensures
        ({
            let u = dedup_lines(crate::order::sort_by_start(crate::lrc::lrc_entries(s)));
            forall|k: int| 0 <= k < u.len() ==> (#[trigger] u[k]).end is None
        }),
{
    broadcast use vstd::seq_lib::group_to_multiset_ensures;
    let e = crate::lrc::lrc_entries(s);
    let sorted = crate::order::sort_by_start(e);
    let u = dedup_lines(sorted);
    lemma_entries_open(lines_of(s));
    crate::order::lemma_sort_permutes(e);
    lemma_dedup_from(sorted);
    assert forall|k: int| 0 <= k < u.len() implies (#[trigger] u[k]).end is None by {
        let x = u[k];
        assert(sorted.contains(x));
        assert(sorted.to_multiset().count(x) > 0);
        assert(e.contains(x));
        let j = choose|j: int| 0 <= j < e.len() && e[j] == x;
    }
}

/// In line LRC, the words of a timed line that is followed by a later one
/// start in strictly rising order, the first at the line's time, all before
/// the next line's time, as long as each word's share of the gap (less the
/// reserve) comes, rounded, to at least a millisecond and the shares of all
/// its words but the last add up to less than the gap (which any line of
/// fewer than two million words meets, see `law_line_words_within`).
pub proof fn law_line_lrc_within_gap(s: Seq<char>, i: int)
    requires
        ({
            let u = dedup_lines(crate::order::sort_by_start(crate::lrc::lrc_entries(s)));
            let g = (u[i + 1].start - u[i].start) as nat;
            let ws = words_of(u[i].text).map_values(|w: Seq<char>| weight_of(w));
            &&& 0 <= i < u.len() - 1
            &&& u[i].start < u[i + 1].start <= MAX_NANOS
            &&& 0 < words_of(u[i].text).len()
            &&& forall|j: int|
                0 <= j < ws.len() ==> round_even((g - reserve(g)) as nat * ws[j], total(ws))
                    >= NANOS_PER_MILLI
            &&& total(rounded_shares(ws, (g - reserve(g)) as nat).drop_last()) < g
        }),
    ensures
        ({
            let u = dedup_lines(crate::order::sort_by_start(crate::lrc::lrc_entries(s)));
            let lw = line_words(u, i);
            &&& lw[0].start == u[i].start
            &&& forall|k: int| 0 <= k < lw.len() ==> u[i].start <= #[trigger] lw[k].start < u[i + 1].start
            &&& forall|j: int, k: int| 0 <= j < k < lw.len() ==> #[trigger] lw[j].start < #[trigger] lw[k].start
        }),
{
    let u = dedup_lines(crate::order::sort_by_start(crate::lrc::lrc_entries(s)));
    lemma_lrc_lines_open(s);
    assert(u[i].end is None);
    let g = (u[i + 1].start - u[i].start) as nat;
    assert(crate::lyrics::line_span(u, i) == Some(g));
    law_line_words_before_end(u, i, g);
}

/// Where line `i`'s time is not known, its first word starts at the line's
/// start and each next one after the one before it by that word's fixed span,
/// 120 to 700 ms, as long as the spans of all its words but the last, added
/// to its start, stay within the longest `Duration` (past it, starts stop at
/// the longest `Duration`: the condition is the exact one).
pub proof fn law_untimed_line_steps(lines: Seq<LineView>, i: int)
    requires
        0 <= i < lines.len(),
        crate::lyrics::line_span(lines, i) is None,
        lines[i].start + total(
            fallback_durations(
                words_of(lines[i].text).map_values(|w: Seq<char>| weight_of(w)),
            ).drop_last(),
        ) <= MAX_NANOS,
    ensures
        ({
            let lw = line_words(lines, i);
            let spans = fallback_durations(
                words_of(lines[i].text).map_values(|w: Seq<char>| weight_of(w)),
            );
            &&& lw.len() > 0 ==> lw[0].start == lines[i].start
            &&& forall|k: int|
                0 <= k < lw.len() - 1 ==> lw[k + 1].start == #[trigger] lw[k].start + spans[k]
                    && 120 * NANOS_PER_MILLI <= spans[k] <= 700 * NANOS_PER_MILLI
        }),
{
    let t = lines[i].start;
    let split = words_of(lines[i].text);
    let n = split.len();
    let lw = line_words(lines, i);
    if n == 0 {
        return;
    }
    let ws = split.map_values(|w: Seq<char>| weight_of(w));
    let alloc = allocate(ws, None);
    assert(alloc == fallback_durations(ws));
    assert forall|j: int| 0 <= j < alloc.len() implies 120 * NANOS_PER_MILLI <= #[trigger] alloc[j]
        <= 700 * NANOS_PER_MILLI by {
        law_fallback_bounds(ws, j);
    }
    let pre = alloc.take(n - 1);
    assert(pre =~= alloc.drop_last());
    assert forall|k: int| 0 <= k < n implies #[trigger] lw[k].start == t + total(alloc.take(k)) by {
        assert(pre.take(k) =~= alloc.take(k));
        lemma_total_prefix_le(pre, k);
        lemma_sat_total_exact(alloc.take(k));
        assert(lw[k].start == crate::duration::clamp_nanos(t + sat_total(alloc.take(k))));
    }
    assert(alloc.take(0) =~= Seq::<nat>::empty());
    assert forall|k: int| 0 <= k < n - 1 implies lw[k + 1].start == #[trigger] lw[k].start
        + alloc[k] && 120 * NANOS_PER_MILLI <= alloc[k] <= 700 * NANOS_PER_MILLI by {
        lemma_total_step(alloc, k);
        assert(lw[k + 1].start == t + total(alloc.take(k + 1)));
    }
}

/// In line LRC, the words of the last timed line (whose time is not known)
/// step 120 to 700 ms apart, each by its fixed span, the first at the line's
/// time, as long as the spans of all its words but the last, added to its
/// time, stay within the longest `Duration`.
pub proof fn law_line_lrc_last_line(s: Seq<char>)
    requires
        ({
            let u = dedup_lines(crate::order::sort_by_start(crate::lrc::lrc_entries(s)));
            &&& u.len() > 0
            &&& u.last().start + total(
                fallback_durations(
                    words_of(u.last().text).map_values(|w: Seq<char>| weight_of(w)),
                ).drop_last(),
            ) <= MAX_NANOS
        }),
    ensures
        ({
            let u = dedup_lines(crate::order::sort_by_start(crate::lrc::lrc_entries(s)));
            let lw = line_words(u, u.len() - 1);
            let spans = fallback_durations(
                words_of(u.last().text).map_values(|w: Seq<char>| weight_of(w)),
            );
            &&& lw.len() > 0 ==> lw[0].start == u.last().start
            &&& forall|k: int|
                0 <= k < lw.len() - 1 ==> lw[k + 1].start == #[trigger] lw[k].start + spans[k]
                    && 120 * NANOS_PER_MILLI <= spans[k] <= 700 * NANOS_PER_MILLI
        }),
{
    let u = dedup_lines(crate::order::sort_by_start(crate::lrc::lrc_entries(s)));
    lemma_lrc_lines_open(s);
    assert(u[u.len() - 1].end is None);
    law_untimed_line_steps(u, u.len() - 1);
}

proof fn lemma_round_even_at_most(a: nat, b: nat, c: nat)
    requires
        b > 0,
        a <= c * b,
    ensures
        round_even(a, b) <= c,
{
    let q = a / b;
    let r = a % b;
    assert(a == b * q + r && 0 <= r < b) by (nonlinear_arith)
        requires
            b > 0,
            q == a / b,
            r == a % b,
    ;
    assert(r > 0 ==> q < c) by (nonlinear_arith)
        requires
            a == b * q + r,
            a <= c * b,
            b > 0,
            r >= 0,
    ;
    assert(q <= c) by (nonlinear_arith)
        requires
            a == b * q + r,
            a <= c * b,
            b > 0,
            r >= 0,
    ;
}

/// Plain lyrics spread over a track of `d` nanoseconds: line `i` of `n`
/// starts at `d * i / n`, rounded (halves to even), and so does its first
/// word.
pub proof fn law_plain_line_start(s: Seq<char>, d: nat, i: int)
    requires
        0 < d <= MAX_NANOS,
        0 <= i < nonblank_lines(lines_of(s)).len(),
    ensures
        ({
            let ls = nonblank_lines(lines_of(s));
            let sp = spread_lines(ls, d);
            &&& sp[i].start == round_even(d * i as nat, ls.len())
            &&& sp[i].start <= d
            &&& words_of(ls[i]).len() > 0 ==> line_words(sp, i)[0].start == round_even(
                d * i as nat,
                ls.len(),
            )
        }),
{
    let ls = nonblank_lines(lines_of(s));
    let n = ls.len();
    let sp = spread_lines(ls, d);
    assert(d * i as nat <= d * n) by (nonlinear_arith)
        requires
            i < n,
            i >= 0,
    ;
    lemma_round_even_at_most(d * i as nat, n, d);
    let split = words_of(ls[i]);
    if split.len() > 0 {
        let alloc = allocate(
            split.map_values(|w: Seq<char>| weight_of(w)),
            crate::lyrics::line_span(sp, i),
        );
        assert(alloc.take(0) =~= Seq::<nat>::empty());
        assert(sp[i].text == ls[i]);
    }
}

/// Plain lyrics spread over a track of `d` nanoseconds: the words of a line
/// that meets `plain_line_ok` start before the track ends, in strictly
/// rising order.
pub proof fn law_plain_words_before_end(s: Seq<char>, d: nat, i: int)
    requires
        0 < d <= MAX_NANOS,
        0 <= i < nonblank_lines(lines_of(s)).len(),
        plain_line_ok(nonblank_lines(lines_of(s)), d, i),
    ensures
        ({
            let sp = spread_lines(nonblank_lines(lines_of(s)), d);
            let lw = line_words(sp, i);
            &&& forall|k: int| 0 <= k < lw.len() ==> #[trigger] lw[k].start < d
            &&& forall|j: int, k: int| 0 <= j < k < lw.len() ==> #[trigger] lw[j].start < #[trigger] lw[k].start
        }),
{
    let ls = nonblank_lines(lines_of(s));
    let n = ls.len();
    let sp = spread_lines(ls, d);
    let e = sp[i].end->0;
    if i + 1 < n {
        assert(d * (i + 1) as nat <= d * n) by (nonlinear_arith)
            requires
                i + 1 <= n,
                i >= 0,
        ;
        lemma_round_even_at_most(d * (i + 1) as nat, n, d);
    }
    assert(e <= d);
    let g = (e - sp[i].start) as nat;
    assert(sp[i].text == ls[i]);
    assert(crate::lyrics::line_span(sp, i) == Some(g));
    law_line_words_before_end(sp, i, g);
}

proof fn lemma_count_alnum_le(w: Seq<char>)
    ensures
        crate::timing::count_alnum(w) <= w.len(),
    decreases w.len(),
{
    if w.len() > 0 {
        lemma_count_alnum_le(w.drop_last());
    }
}

proof fn lemma_total_concat(a: Seq<nat>, b: Seq<nat>)
    ensures
        total(a + b) == total(a) + total(b),
    decreases b.len(),
{
    if b.len() == 0 {
        assert(a + b =~= a);
    } else {
        lemma_total_concat(a, b.drop_last());
        assert((a + b).drop_last() =~= a + b.drop_last());
    }
}

/// The words of `x` are no more than its chars, and weigh at most 2.08 per
/// char.
proof fn lemma_words_budget(x: Seq<char>)
    ensures
        words_of(x).len() <= x.len(),
        total(words_of(x).map_values(|w: Seq<char>| weight_of(w))) <= 208 * x.len(),
    decreases x.len(),
{
    if x.len() == 0 {
        assert(words_of(x).map_values(|w: Seq<char>| weight_of(w)) =~= Seq::<nat>::empty());
    } else if crate::text::is_ws(x[0]) {
        lemma_words_budget(x.drop_first());
        assert(words_of(x) == words_of(x.drop_first()));
    } else {
        let n = crate::text::word_len(x);
        crate::text::lemma_word_len(x);
        let first = x.take(n as int);
        let rest = x.skip(n as int);
        lemma_words_budget(rest);
        lemma_count_alnum_le(first);
        assert(weight_of(first) <= 200 + 8 * n);
        let a = seq![weight_of(first)];
        let b = words_of(rest).map_values(|w: Seq<char>| weight_of(w));
        assert(words_of(x).map_values(|w: Seq<char>| weight_of(w)) =~= a + b);
        lemma_total_concat(a, b);
        assert(a.drop_last() =~= Seq::<nat>::empty());
        assert(total(Seq::<nat>::empty()) == 0);
        assert(a.last() == weight_of(first));
        assert(total(a) == total(a.drop_last()) + a.last());
        assert(total(a) == weight_of(first));
        assert(rest.len() == x.len() - n);
        assert(n >= 1);
        assert(total(b) <= 208 * rest.len());
        assert(weight_of(first) + total(b) <= 208 * x.len());
    }
}

proof fn lemma_trim_start_le(x: Seq<char>)
    ensures
        crate::text::trim_start(x).len() <= x.len(),
    decreases x.len(),
{
    if x.len() > 0 && is_ws(x[0]) {
        lemma_trim_start_le(x.drop_first());
    }
}

proof fn lemma_trim_end_le(x: Seq<char>)
    ensures
        crate::text::trim_end(x).len() <= x.len(),
    decreases x.len(),
{
    if x.len() > 0 && is_ws(x.last()) {
        lemma_trim_end_le(x.drop_last());
    }
}

/// Whether `w` starts at one of the marks `stamps` or less than 80 ms after it.
pub open spec fn near_mark(w: WordView, stamps: Seq<nat>) -> bool {
    exists|j: int| 0 <= j < stamps.len() && #[trigger] stamps[j] <= w.start < stamps[j] + group_span()
}

proof fn lemma_scan_near(r: Seq<char>)
    requires
        r.len() <= 6000,
        crate::lrc::all_fit(crate::lrc::enhanced_stamps(r)),
    ensures
        forall|k: int|
            0 <= k < enhanced_scan(r).len() ==> near_mark(
                #[trigger] enhanced_scan(r)[k],
                crate::lrc::enhanced_stamps(r),
            ),
    decreases r.len(),
{
    let st = crate::lrc::enhanced_stamps(r);
    lemma_find_char(r, '<');
    if let Some(o) = find_char(r, '<') {
        let after = r.skip(o + 1);
        lemma_find_char(after, '>');
        if let Some(c) = find_char(after, '>') {
            match timestamp_nanos(after.take(c)) {
                None => {
                    assert(st == crate::lrc::enhanced_stamps(after));
                    lemma_scan_near(after);
                    assert(enhanced_scan(r) == enhanced_scan(after));
                },
                Some(ts) => {
                    let after_ts = after.skip(c + 1);
                    let rest_st = crate::lrc::enhanced_stamps(after_ts);
                    assert(st == seq![ts] + rest_st);
                    assert(st[0] == ts);
                    assert(ts <= MAX_NANOS);
                    assert forall|i: int| 0 <= i < rest_st.len() implies #[trigger] rest_st[i]
                        <= MAX_NANOS by {
                        assert(rest_st[i] == st[i + 1]);
                    }
                    lemma_scan_near(after_ts);
                    let word_end = match find_char(after_ts, '<') {
                        Some(e) => e,
                        None => after_ts.len() as int,
                    };
                    lemma_find_char(after_ts, '<');
                    let raw_word = after_ts.take(word_end);
                    let word = trim(raw_word);
                    let here = if word.len() == 0 {
                        seq![]
                    } else {
                        group_words(word, ts)
                    };
                    let rest = enhanced_scan(after_ts);
                    assert(enhanced_scan(r) == here + rest);
                    if word.len() > 0 {
                        lemma_trim_start_le(raw_word);
                        lemma_trim_end_le(crate::text::trim_start(raw_word));
                        lemma_words_budget(word);
                        let nw = words_of(word).len();
                        let tw = total(words_of(word).map_values(|w: Seq<char>| weight_of(w)));
                        assert(nw * tw < 8_000_000_000) by (nonlinear_arith)
                            requires
                                nw <= word.len(),
                                tw <= 208 * word.len(),
                                word.len() <= 6000,
                        {
                            assert(nw * tw <= word.len() * (208 * word.len()));
                            assert(word.len() * (208 * word.len()) <= 6000 * (208 * 6000));
                        }
                        crate::text::lemma_trim_head(raw_word);
                        assert(words_of(word).len() > 0) by {
                            assert(!is_ws(word[0]));
                            assert(words_of(word)[0] == word.take(crate::text::word_len(word) as int));
                        }
                        law_group_words(word, ts);
                    }
                    assert forall|k: int| 0 <= k < (here + rest).len() implies near_mark(
                        #[trigger] (here + rest)[k],
                        st,
                    ) by {
                        let w = (here + rest)[k];
                        if k < here.len() {
                            assert(st[0] <= w.start < st[0] + group_span());
                        } else {
                            assert(w == rest[k - here.len()]);
                            assert(near_mark(rest[k - here.len()], rest_st));
                            let j = choose|j: int|
                                0 <= j < rest_st.len() && #[trigger] rest_st[j] <= w.start
                                    < rest_st[j] + group_span();
                            assert(st[j + 1] == rest_st[j]);
                        }
                    }
                },
            }
        } else {
            assert(enhanced_scan(r).len() == 0);
        }
    } else {
        assert(enhanced_scan(r).len() == 0);
    }
}

proof fn lemma_lines_near(ls: Seq<Seq<char>>)
    requires
        forall|i: int| 0 <= i < ls.len() ==> (#[trigger] ls[i]).len() <= 6000,
        forall|i: int| 0 <= i < ls.len() ==> crate::lrc::all_fit(
            #[trigger] crate::lrc::enhanced_stamps(ls[i]),
        ),
    ensures
        forall|k: int|
            0 <= k < enhanced_of_lines(ls).len() ==> exists|i: int|
                0 <= i < ls.len() && near_mark(
                    #[trigger] enhanced_of_lines(ls)[k],
                    crate::lrc::enhanced_stamps(ls[i]),
                ),
    decreases ls.len(),
{
    if ls.len() > 0 {
        let pre = ls.drop_last();
        assert forall|i: int| 0 <= i < pre.len() implies (#[trigger] pre[i]).len() <= 6000 by {
            assert(pre[i] == ls[i]);
        }
        assert forall|i: int| 0 <= i < pre.len() implies crate::lrc::all_fit(
            #[trigger] crate::lrc::enhanced_stamps(pre[i]),
        ) by {
            assert(pre[i] == ls[i]);
        }
        lemma_lines_near(pre);
        let last = ls.len() - 1;
        assert(ls.last() == ls[last]);
        assert(ls[last].len() <= 6000);
        assert(crate::lrc::all_fit(crate::lrc::enhanced_stamps(ls[last])));
        lemma_scan_near(ls.last());
        let a = enhanced_of_lines(pre);
        let b = enhanced_scan(ls.last());
        assert forall|k: int| 0 <= k < (a + b).len() implies exists|i: int|
            0 <= i < ls.len() && near_mark(
                #[trigger] (a + b)[k],
                crate::lrc::enhanced_stamps(ls[i]),
            ) by {
            if k >= a.len() {
                assert((a + b)[k] == b[k - a.len()]);
                assert(near_mark(b[k - a.len()], crate::lrc::enhanced_stamps(ls[last])));
            } else {
                assert((a + b)[k] == a[k]);
                let i = choose|i: int|
                    0 <= i < pre.len() && near_mark(a[k], crate::lrc::enhanced_stamps(pre[i]));
                assert(pre[i] == ls[i]);
            }
        }
    }
}

/// Enhanced LRC text whose lines are at most 6,000 chars long, with every
/// `<timestamp>` mark within the longest `Duration`, gives its words in
/// order of start, each nonempty, without whitespace, and starting at a mark
/// of its line or less than 80 ms after it.
pub proof fn law_enhanced_words(s: Seq<char>)
    requires
        crate::lrc::enhanced_fits(s),
        forall|i: int| 0 <= i < lines_of(s).len() ==> (#[trigger] lines_of(s)[i]).len() <= 6000,
    ensures
        sorted_by_start(enhanced_words(s)),
        forall|k: int|
            0 <= k < enhanced_words(s).len() ==> clean_word(#[trigger] enhanced_words(s)[k])
                && exists|i: int|
                0 <= i < lines_of(s).len() && near_mark(
                    enhanced_words(s)[k],
                    crate::lrc::enhanced_stamps(lines_of(s)[i]),
                ),
{
    broadcast use vstd::seq_lib::group_to_multiset_ensures;
    let ls = lines_of(s);
    let e = enhanced_of_lines(ls);
    lemma_sort_sorted(e);
    law_enhanced_words_clean(s);
    lemma_lines_near(ls);
    crate::order::lemma_sort_permutes(e);
    let sorted = enhanced_words(s);
    assert forall|k: int| 0 <= k < sorted.len() implies clean_word(#[trigger] sorted[k])
        && exists|i: int|
        0 <= i < ls.len() && near_mark(sorted[k], crate::lrc::enhanced_stamps(ls[i])) by {
        let x = sorted[k];
        assert(sorted.contains(x));
        assert(sorted.to_multiset().count(x) > 0);
        assert(e.contains(x));
        let j = choose|j: int| 0 <= j < e.len() && e[j] == x;
        assert(exists|i: int| 0 <= i < ls.len() && near_mark(e[j], crate::lrc::enhanced_stamps(ls[i])));
    }
}

/// A sequence already in order of start is left as it is by the sort.
proof fn lemma_sort_of_sorted(s: Seq<WordView>)
    requires
        sorted_by_start(s),
    ensures
        crate::order::sort_by_start(s) == s,
    decreases s.len(),
{
    if s.len() > 0 {
        let rest = s.drop_first();
        assert(sorted_by_start(rest)) by {
            assert forall|i: int, j: int| 0 <= i <= j < rest.len() implies rest[i].key()
                <= rest[j].key() by {
                assert(rest[i] == s[i + 1] && rest[j] == s[j + 1]);
            }
        }
        lemma_sort_of_sorted(rest);
        if rest.len() > 0 {
            assert(rest[0] == s[1]);
            assert(s[0].key() <= s[1].key());
        }
        assert(crate::order::lower_pos(rest, s[0].key()) == 0);
        assert(rest.insert(0, s[0]) =~= s);
    }
}

/// The words of the first `m` of the lines `ls`, one after the other.
pub open spec fn tokens_of_lines(ls: Seq<Seq<char>>, m: int) -> Seq<Seq<char>>
    decreases m,
{
    if m <= 0 {
        seq![]
    } else {
        tokens_of_lines(ls, m - 1) + words_of(ls[m - 1])
    }
}

/// Whether line `i` of the plain lines `ls` spread over `d` nanoseconds ends
/// after it starts, and its words' shares of the line's time less the
/// reserve each come, rounded, to at least a millisecond, those of all but
/// the last adding up to less than the line's time.
pub open spec fn plain_line_ok(ls: Seq<Seq<char>>, d: nat, i: int) -> bool {
    let sp = spread_lines(ls, d);
    let e = sp[i].end->0;
    let g = (e - sp[i].start) as nat;
    let ws = words_of(ls[i]).map_values(|w: Seq<char>| weight_of(w));
    &&& e > sp[i].start
    &&& 0 < words_of(ls[i]).len()
    &&& forall|j: int|
        0 <= j < ws.len() ==> round_even((g - reserve(g)) as nat * ws[j], total(ws))
            >= NANOS_PER_MILLI
    &&& total(rounded_shares(ws, (g - reserve(g)) as nat).drop_last()) < g
}

proof fn lemma_plain_timed(ls: Seq<Seq<char>>, d: nat, m: int)
    requires
        0 < d <= MAX_NANOS,
        0 <= m <= ls.len(),
        forall|i: int| 0 <= i < ls.len() ==> #[trigger] plain_line_ok(ls, d, i),
    ensures
        ({
            let sp = spread_lines(ls, d);
            let t = crate::lyrics::timed_words(sp, m);
            &&& sorted_by_start(t)
            &&& t.map_values(|w: WordView| w.text) == tokens_of_lines(ls, m)
            &&& forall|k: int|
                0 <= k < t.len() ==> #[trigger] t[k].start < (if m < ls.len() {
                    sp[m].start
                } else {
                    d
                })
            &&& m < ls.len() ==> sp[m].start <= d
        }),
    decreases m,
{
    let sp = spread_lines(ls, d);
    let n = ls.len();
    let t = crate::lyrics::timed_words(sp, m);
    if m < n {
        law_plain_line_start_bound(ls, d, m);
    }
    if m == 0 {
        assert(t.map_values(|w: WordView| w.text) =~= Seq::<Seq<char>>::empty());
        return;
    }
    lemma_plain_timed(ls, d, m - 1);
    let i = m - 1;
    let a = crate::lyrics::timed_words(sp, i);
    let lw = line_words(sp, i);
    assert(t == a + lw);
    assert(plain_line_ok(ls, d, i));
    law_plain_line_start_bound(ls, d, i);
    let e = sp[i].end->0;
    let g = (e - sp[i].start) as nat;
    assert(sp[i].text == ls[i]);
    let bound = if m < n {
        sp[m].start
    } else {
        d
    };
    assert(e == bound) by {
        if m < n {
            assert(e == round_even(d * (i + 1) as nat, n));
        }
    }
    assert(e <= d);
    assert(crate::lyrics::line_span(sp, i) == Some(g));
    law_line_words_before_end(sp, i, g);
    assert(lw.map_values(|w: WordView| w.text) =~= words_of(ls[i]));
    assert(t.map_values(|w: WordView| w.text) =~= a.map_values(|w: WordView| w.text) + lw.map_values(
        |w: WordView| w.text,
    ));
    assert forall|k: int| 0 <= k < t.len() implies #[trigger] t[k].start < bound by {
        if k >= a.len() {
            assert(t[k] == lw[k - a.len()]);
        } else {
            assert(t[k] == a[k]);
        }
    }
    assert forall|x: int, y: int| 0 <= x <= y < t.len() implies t[x].key() <= t[y].key() by {
        if y < a.len() {
            assert(t[x] == a[x] && t[y] == a[y]);
        } else if x >= a.len() {
            assert(t[x] == lw[x - a.len()] && t[y] == lw[y - a.len()]);
            if x < y {
                assert(lw[x - a.len()].start < lw[y - a.len()].start);
            }
        } else {
            assert(t[x] == a[x] && t[y] == lw[y - a.len()]);
            assert(a[x].start < sp[i].start);
        }
    }
}

proof fn lemma_plain_line_bound_helper(d: nat, n: nat, i: int)
    requires
        0 <= i <= n,
        n > 0,
    ensures
        round_even(d * i as nat, n) <= d,
{
    assert(d * i as nat <= d * n) by (nonlinear_arith)
        requires
            i <= n,
            i >= 0,
    ;
    lemma_round_even_at_most(d * i as nat, n, d);
}

proof fn law_plain_line_start_bound(ls: Seq<Seq<char>>, d: nat, i: int)
    requires
        0 <= i < ls.len(),
    ensures
        spread_lines(ls, d)[i].start == round_even(d * i as nat, ls.len()),
        spread_lines(ls, d)[i].start <= d,
        spread_lines(ls, d)[i].end->0 <= d,
        i + 1 < ls.len() ==> spread_lines(ls, d)[i].end->0 == round_even(
            d * (i + 1) as nat,
            ls.len(),
        ),
{
    lemma_plain_line_bound_helper(d, ls.len(), i);
    lemma_plain_line_bound_helper(d, ls.len(), i + 1);
}

/// Plain lyrics spread over a track of `d` nanoseconds, where each line ends
/// after it starts and its words' shares come to at least a millisecond
/// (`plain_line_ok`), give the words of the nonblank lines in their order,
/// in order of start, the first word of line `i` of `n` at `d * i / n`
/// rounded (halves to even), and every word before the track ends.
pub proof fn law_plain_words(s: Seq<char>, d: nat)
    requires
        0 < d <= MAX_NANOS,
        forall|i: int|
            0 <= i < nonblank_lines(lines_of(s)).len() ==> #[trigger] plain_line_ok(
                nonblank_lines(lines_of(s)),
                d,
                i,
            ),
    ensures
        ({
            let ls = nonblank_lines(lines_of(s));
            let pw = plain_words(s, Some(d));
            let sp = spread_lines(ls, d);
            &&& pw.map_values(|w: WordView| w.text) == tokens_of_lines(ls, ls.len() as int)
            &&& sorted_by_start(pw)
            &&& forall|k: int| 0 <= k < pw.len() ==> #[trigger] pw[k].start < d
            &&& forall|i: int|
                0 <= i < ls.len() ==> #[trigger] pw[tokens_of_lines(ls, i).len() as int] == WordView {
                    text: words_of(ls[i])[0],
                    start: round_even(d * i as nat, ls.len()),
                }
        }),
{
    let ls = nonblank_lines(lines_of(s));
    let n = ls.len() as int;
    let sp = spread_lines(ls, d);
    let t = crate::lyrics::timed_words(sp, n);
    lemma_plain_timed(ls, d, n);
    lemma_sort_of_sorted(t);
    assert(plain_words(s, Some(d)) == t);
    assert forall|i: int| 0 <= i < ls.len() implies #[trigger] t[tokens_of_lines(ls, i).len() as int]
        == WordView { text: words_of(ls[i])[0], start: round_even(d * i as nat, ls.len()) } by {
        assert(plain_line_ok(ls, d, i));
        lemma_timed_prefix(ls, d, i, n);
        law_plain_line_start(s, d, i);
        assert(sp[i].text == ls[i]);
    }
}

/// Line `i`'s words sit in the words of the first `m > i` lines right after
/// those of the lines before it.
proof fn lemma_timed_prefix(ls: Seq<Seq<char>>, d: nat, i: int, m: int)
    requires
        0 <= i < m <= ls.len(),
        words_of(ls[i]).len() > 0,
    ensures
        ({
            let sp = spread_lines(ls, d);
            let t = crate::lyrics::timed_words(sp, m);
            &&& crate::lyrics::timed_words(sp, i).len() == tokens_of_lines(ls, i).len()
            &&& tokens_of_lines(ls, i).len() < t.len()
            &&& t[tokens_of_lines(ls, i).len() as int] == line_words(sp, i)[0]
        }),
    decreases m,
{
    let sp = spread_lines(ls, d);
    lemma_timed_len_tokens(ls, d, i);
    lemma_timed_len_tokens(ls, d, m);
    let a = crate::lyrics::timed_words(sp, m - 1);
    let b = line_words(sp, m - 1);
    assert(sp[i].text == ls[i]);
    if i == m - 1 {
        assert((a + b)[a.len() as int] == b[0]);
    } else {
        lemma_timed_prefix(ls, d, i, m - 1);
        let p = tokens_of_lines(ls, i).len() as int;
        assert((a + b)[p] == a[p]);
    }
}

proof fn lemma_timed_len_tokens(ls: Seq<Seq<char>>, d: nat, m: int)
    requires
        0 <= m <= ls.len(),
    ensures
        crate::lyrics::timed_words(spread_lines(ls, d), m).len() == tokens_of_lines(ls, m).len(),
    decreases m,
{
    if m > 0 {
        lemma_timed_len_tokens(ls, d, m - 1);
        assert(spread_lines(ls, d)[m - 1].text == ls[m - 1]);
    }
}

/// Where no time is known, each word lasts between 120 and 700 ms.
pub proof fn law_fallback_bounds(ws: Seq<nat>, k: int)
    requires
        0 <= k < ws.len(),
    ensures
        120 * NANOS_PER_MILLI <= fallback_durations(ws)[k] <= 700 * NANOS_PER_MILLI,
{
    assert(120 <= fallback_ms(ws[k]) <= 700);
    assert(fallback_durations(ws)[k] == fallback_ms(ws[k]) * NANOS_PER_MILLI);
}

/// A word with more letters and digits weighs no less.
pub proof fn law_weight_grows(n: nat, m: nat)
    requires
        n <= m,
    ensures
        base_weight(n) <= base_weight(m),
        base_weight(n) >= 50,
{
}

/// Where a line's time is shared, each word gets at least a millisecond.
pub proof fn law_share_at_least_a_millisecond(usable: nat, w: nat, sum: nat)
    ensures
        share(usable, w, sum) >= NANOS_PER_MILLI,
{
}

/// After dropping repeats, no timed line repeats the one before it.
pub proof fn law_no_repeated_lines(s: Seq<LineView>, i: int)
    requires
        0 <= i < dedup_lines(s).len() - 1,
    ensures
        !same_line(dedup_lines(s)[i], dedup_lines(s)[i + 1]),
    decreases s.len(),
{
    let d = dedup_lines(s.drop_last());
    if d.len() > 0 && same_line(s.last(), d.last()) {
        law_no_repeated_lines(s.drop_last(), i);
    } else {
        if i < d.len() - 1 {
            law_no_repeated_lines(s.drop_last(), i);
        } else {
            assert(dedup_lines(s)[i] == d.last());
            assert(dedup_lines(s)[i + 1] == s.last());
        }
    }
}

/// A word of `n` chars is drawn `7 * n + 2 * (n - 1)` columns wide: seven per
/// glyph and two between glyphs.
pub proof fn law_drawn_width(word: Seq<char>, src: nat)
    ensures
        word.len() > 0 ==> glyph_line(word, src).len() == 9 * word.len() - 2,
        word.len() == 0 ==> glyph_line(word, src).len() == 0,
    decreases word.len(),
{
    if word.len() > 0 {
        assert forall|c: char| #[trigger] glyph_cell(c, src).len() == 7 by {}
        if word.len() > 1 {
            law_drawn_width(word.drop_last(), src);
        }
    }
}

/// Whitespace around a timestamp does not change what it reads as.
pub proof fn law_timestamp_ignores_whitespace(t: Seq<char>)
    ensures
        crate::timestamp::timestamp_nanos(crate::text::trim(t)) == crate::timestamp::timestamp_nanos(t),
{
    crate::text::lemma_trim_idempotent(t);
}

/// Whether the words `ws` (the words of a line), given the time `g` of the
/// line less the reserve, each get a rounded share of at least a
/// millisecond, those of all but the last adding up to less than `g`.
pub open spec fn shares_fit(ws: Seq<Seq<char>>, g: nat) -> bool {
    let weights = ws.map_values(|w: Seq<char>| weight_of(w));
    let usable = (g - reserve(g)) as nat;
    &&& forall|j: int|
        0 <= j < weights.len() ==> round_even(usable * weights[j], total(weights)) >= NANOS_PER_MILLI
    &&& total(rounded_shares(weights, usable).drop_last()) < g
}

/// Whether the words `ws` include the word `text` starting in `[lo, hi)`.
pub open spec fn has_word_within(ws: Seq<WordView>, text: Seq<char>, lo: nat, hi: nat) -> bool {
    exists|x: nat| lo <= x < hi && #[trigger] ws.contains(WordView { text, start: x })
}

/// Whether the words that `lines` give include the word `text` starting in
/// `[lo, hi)`.
pub open spec fn gives_word_within(lines: Seq<LineView>, text: Seq<char>, lo: nat, hi: nat) -> bool {
    has_word_within(estimate_words(lines), text, lo, hi)
}

/// A timed line that ends after it starts keeps its words within its own
/// time, whatever lines follow: each of its words is among the words that the
/// lines give, starting at or after the line's start and before its end (as
/// long as its words' shares of that time fit, see `shares_fit`, and the end
/// is within the longest `Duration`).
pub proof fn law_line_end_bounds_words(lines: Seq<LineView>, i: int, e: nat)
    requires
        0 <= i < lines.len(),
        lines[i].end == Some(e),
        lines[i].start < e <= MAX_NANOS,
        words_of(lines[i].text).len() > 0,
        shares_fit(words_of(lines[i].text), (e - lines[i].start) as nat),
    ensures
        forall|k: int|
            0 <= k < words_of(lines[i].text).len() ==> gives_word_within(
                lines,
                #[trigger] words_of(lines[i].text)[k],
                lines[i].start,
                e,
            ),
{
    broadcast use vstd::seq_lib::group_to_multiset_ensures;
    let g = (e - lines[i].start) as nat;
    assert(crate::lyrics::line_span(lines, i) == Some(g));
    law_line_words_before_end(lines, i, g);
    let n = lines.len() as int;
    let t = crate::lyrics::timed_words(lines, n);
    crate::order::lemma_sort_permutes(t);
    let lw = line_words(lines, i);
    assert forall|k: int| 0 <= k < words_of(lines[i].text).len() implies gives_word_within(
        lines,
        #[trigger] words_of(lines[i].text)[k],
        lines[i].start,
        e,
    ) by {
        let w = lw[k];
        assert(w.text == words_of(lines[i].text)[k]);
        lemma_timed_contains(lines, n, i, k);
        assert(t.to_multiset().count(w) > 0);
        assert(estimate_words(lines).to_multiset().count(w) > 0);
        assert(estimate_words(lines).contains(w));
        assert(w == WordView { text: words_of(lines[i].text)[k], start: w.start });
    }
}
proof fn lemma_no_word_lists(ls: Seq<crate::lyricsfile::LyricsFileLine>)
    requires
        forall|j: int| 0 <= j < ls.len() ==> (#[trigger] ls[j]).words is None,
    ensures
        crate::lyricsfile::file_words(ls).len() == 0,
    decreases ls.len(),
{
    if ls.len() > 0 {
        let pre = ls.drop_last();
        assert forall|j: int| 0 <= j < pre.len() implies (#[trigger] pre[j]).words is None by {
            assert(pre[j] == ls[j]);
        }
        lemma_no_word_lists(pre);
        assert(ls[ls.len() - 1].words is None);
    }
}

proof fn lemma_file_line_present(ls: Seq<crate::lyricsfile::LyricsFileLine>, i: int)
    requires
        0 <= i < ls.len(),
        crate::lyricsfile::file_line_entry(ls[i]).len() > 0,
    ensures
        crate::lyricsfile::file_lines(ls).contains(crate::lyricsfile::file_line_entry(ls[i])[0]),
    decreases ls.len(),
{
    let a = crate::lyricsfile::file_lines(ls.drop_last());
    let b = crate::lyricsfile::file_line_entry(ls.last());
    let x = crate::lyricsfile::file_line_entry(ls[i])[0];
    if i == ls.len() - 1 {
        assert((a + b)[a.len() as int] == x);
    } else {
        assert(ls.drop_last()[i] == ls[i]);
        lemma_file_line_present(ls.drop_last(), i);
        let j = choose|j: int| 0 <= j < a.len() && a[j] == x;
        assert((a + b)[j] == x);
    }
}

/// In a lyricsfile without word timing, a line with text, a start and a
/// later end keeps its words within its own start and end, whatever lines
/// follow: reading the file gives line-timed lyrics among whose words each
/// word of that line starts at or after the line's start and before its end
/// (as long as its words' shares of that time fit, see `shares_fit`).
pub proof fn law_file_line_end_bounds_words(
    f: crate::lyricsfile::LyricsFile,
    d: Option<nat>,
    r: Option<crate::lyrics::Lyrics>,
    i: int,
)
    requires
        crate::lyricsfile::file_lyrics(f, d, r),
        forall|j: int|
            0 <= j < crate::lyricsfile::lines_of_file(f).len() ==> (
            #[trigger] crate::lyricsfile::lines_of_file(f)[j]).words is None,
        0 <= i < crate::lyricsfile::lines_of_file(f).len(),
        ({
            let l = crate::lyricsfile::lines_of_file(f)[i];
            &&& l.text is Some
            &&& l.start_ms is Some
            &&& l.end_ms is Some
            &&& l.start_ms->0 < l.end_ms->0
            &&& words_of(trim(l.text->0@)).len() > 0
            &&& shares_fit(
                words_of(trim(l.text->0@)),
                ((l.end_ms->0 - l.start_ms->0) * NANOS_PER_MILLI) as nat,
            )
        }),
    ensures
        ({
            let l = crate::lyricsfile::lines_of_file(f)[i];
            let ws = words_of(trim(l.text->0@));
            &&& r matches Some(lyr)
            &&& lyr.source == crate::lyrics::LyricsSource::LyricsFileLine
            &&& forall|k: int|
                0 <= k < ws.len() ==> has_word_within(
                    crate::lyrics::words_view(lyr.words@),
                    #[trigger] ws[k],
                    (l.start_ms->0 * NANOS_PER_MILLI) as nat,
                    (l.end_ms->0 * NANOS_PER_MILLI) as nat,
                )
        }),
{
    broadcast use vstd::seq_lib::group_to_multiset_ensures;
    let ls = crate::lyricsfile::lines_of_file(f);
    let l = ls[i];
    let t = trim(l.text->0@);
    let sm = l.start_ms->0;
    let em = l.end_ms->0;
    lemma_no_word_lists(ls);
    let x = crate::lyricsfile::file_line_entry(l)[0];
    assert(crate::lyricsfile::line_word_entries(l).len() == 0);
    assert(x == LineView {
        start: (sm * NANOS_PER_MILLI) as nat,
        end: Some((em * NANOS_PER_MILLI) as nat),
        text: t,
    });
    lemma_file_line_present(ls, i);
    let fls = crate::lyricsfile::file_lines(ls);
    let fl = crate::order::sort_by_start(fls);
    crate::order::lemma_sort_permutes(fls);
    assert(fls.to_multiset().count(x) > 0);
    assert(fl.contains(x));
    let j = choose|j: int| 0 <= j < fl.len() && fl[j] == x;
    let e = (em * NANOS_PER_MILLI) as nat;
    assert(sm * NANOS_PER_MILLI < em * NANOS_PER_MILLI) by (nonlinear_arith)
        requires
            sm < em,
    ;
    assert(em * NANOS_PER_MILLI <= MAX_NANOS) by (nonlinear_arith)
        requires
            em <= u64::MAX,
    ;
    assert((e - fl[j].start) as nat == ((em - sm) * NANOS_PER_MILLI) as nat) by (nonlinear_arith)
        requires
            e == em * NANOS_PER_MILLI,
            fl[j].start == sm * NANOS_PER_MILLI,
            sm < em,
    ;
    law_line_end_bounds_words(fl, j, e);
    let ws = words_of(t);
    assert(fl[j].text == t);
    assert(words_of(fl[j].text)[0] == ws[0]);
    assert(gives_word_within(fl, ws[0], fl[j].start, e));
    assert(estimate_words(fl).len() > 0);
    assert forall|k: int| 0 <= k < ws.len() implies has_word_within(
        crate::lyrics::words_view(r->0.words@),
        #[trigger] ws[k],
        (sm * NANOS_PER_MILLI) as nat,
        (em * NANOS_PER_MILLI) as nat,
    ) by {
        assert(words_of(fl[j].text)[k] == ws[k]);
        assert(gives_word_within(fl, ws[k], fl[j].start, e));
    }
}

/// Synchronised lyrics come before plain ones: where no lyricsfile gives
/// words (there is none, or reading it gives nothing) and the synchronised
/// lyrics fit and give words, as enhanced LRC or else as line LRC, those are
/// the lyrics chosen, whatever plain lyrics and track length come with them.
pub proof fn law_synced_before_plain(
    lyrics_file: Option<crate::lyricsfile::LyricsFile>,
    s: Seq<char>,
    plain: Option<Seq<char>>,
    d: Option<nat>,
    r: Result<Option<crate::lyrics::Lyrics>, crate::lrc::TimestampOverflow>,
)
    requires
        crate::lookup::chosen_lyrics(lyrics_file, Some(s), plain, d, r),
        lyrics_file matches Some(f) ==> crate::lyricsfile::file_lyrics(f, d, None),
        crate::lrc::enhanced_fits(s),
        crate::lrc::lrc_fits(s),
        enhanced_words(s).len() > 0 || line_lrc_words(s).len() > 0,
    ensures
        r matches Ok(Some(l)),
        r->Ok_0->0.source == crate::lyrics::LyricsSource::SyncedLrc,
        crate::lyrics::words_view(r->Ok_0->0.words@) == (if enhanced_words(s).len() > 0 {
            enhanced_words(s)
        } else {
            line_lrc_words(s)
        }),
{
    if let Some(f) = lyrics_file {
        let ls = crate::lyricsfile::lines_of_file(f);
        assert(!crate::lookup::file_gives(f, d)) by {
            if crate::lyricsfile::file_words(ls).len() > 0 {
            } else if estimate_words(crate::order::sort_by_start(crate::lyricsfile::file_lines(ls))).len()
                > 0 {
            } else {
            }
        }
    }
}

/// The number that a drawn row stands for, read from left to right, a block
/// for 1 and anything else for 0.
pub open spec fn row_value(row: Seq<char>) -> nat
    decreases row.len(),
{
    if row.len() == 0 {
        0
    } else {
        row_value(row.drop_last()) * 2 + if row.last() == '\u{2588}' {
            1nat
        } else {
            0nat
        }
    }
}

/// A glyph row's five bits are drawn most significant first: the drawn row,
/// read from left to right as a binary number, gives the row's bits back.
pub proof fn law_glyph_row_reads_back(bits: u8)
    ensures
        row_chars(bits).len() == 5,
        row_value(row_chars(bits)) == bits % 32,
{
    let r = row_chars(bits);
    let a4: u8 = (bits >> 4u8) & 1u8;
    let a3: u8 = (bits >> 3u8) & 1u8;
    let a2: u8 = (bits >> 2u8) & 1u8;
    let a1: u8 = (bits >> 1u8) & 1u8;
    let a0: u8 = (bits >> 0u8) & 1u8;
    assert(a4 * 16 + a3 * 8 + a2 * 4 + a1 * 2 + a0 == bits % 32) by (bit_vector)
        requires
            a4 == (bits >> 4u8) & 1u8,
            a3 == (bits >> 3u8) & 1u8,
            a2 == (bits >> 2u8) & 1u8,
            a1 == (bits >> 1u8) & 1u8,
            a0 == (bits >> 0u8) & 1u8,
    ;
    assert(a4 <= 1 && a3 <= 1 && a2 <= 1 && a1 <= 1 && a0 <= 1) by (bit_vector)
        requires
            a4 == (bits >> 4u8) & 1u8,
            a3 == (bits >> 3u8) & 1u8,
            a2 == (bits >> 2u8) & 1u8,
            a1 == (bits >> 1u8) & 1u8,
            a0 == (bits >> 0u8) & 1u8,
    ;
    assert(r[0] == '\u{2588}' <==> a4 == 1);
    assert(r[1] == '\u{2588}' <==> a3 == 1);
    assert(r[2] == '\u{2588}' <==> a2 == 1);
    assert(r[3] == '\u{2588}' <==> a1 == 1);
    assert(r[4] == '\u{2588}' <==> a0 == 1);
    assert(r.take(5) =~= r);
    assert(r.take(5).drop_last() =~= r.take(4));
    assert(r.take(4).drop_last() =~= r.take(3));
    assert(r.take(3).drop_last() =~= r.take(2));
    assert(r.take(2).drop_last() =~= r.take(1));
    assert(r.take(1).drop_last() =~= r.take(0));
    assert(row_value(r.take(0)) == 0);
    assert(row_value(r.take(1)) == a4);
    assert(row_value(r.take(2)) == a4 * 2 + a3);
    assert(row_value(r.take(3)) == (a4 * 2 + a3) * 2 + a2);
    assert(row_value(r.take(4)) == ((a4 * 2 + a3) * 2 + a2) * 2 + a1);
    assert(row_value(r.take(5)) == (((a4 * 2 + a3) * 2 + a2) * 2 + a1) * 2 + a0);
}

/// A row of five columns scaled by 3/2 shows its columns in their order, the
/// first and third doubled: `0 0 1 2 2 3 4`.
pub proof fn law_scaled_row_layout(row: Seq<char>)
    requires
        row.len() == 5,
    ensures
        scaled_row(row) == seq![row[0], row[0], row[1], row[2], row[2], row[3], row[4]],
{
    let sr = scaled_row(row);
    assert(sr.len() == 7);
    assert(sr =~= seq![row[0], row[0], row[1], row[2], row[2], row[3], row[4]]);
}

/// A word is drawn from left to right: each drawn row starts with its first
/// char's glyph cell and ends with its last char's.
pub proof fn law_word_drawn_left_to_right(word: Seq<char>, src: nat)
    requires
        word.len() > 0,
        src < 7,
    ensures
        glyph_line(word, src).take(7) == glyph_cell(word[0], src),
        glyph_line(word, src).skip(glyph_line(word, src).len() - 7) == glyph_cell(word.last(), src),
    decreases word.len(),
{
    assert forall|c: char| #[trigger] glyph_cell(c, src).len() == 7 by {}
    if word.len() == 1 {
        assert(glyph_line(word, src).take(7) =~= glyph_cell(word[0], src));
        assert(glyph_line(word, src).skip(0) =~= glyph_cell(word.last(), src));
    } else {
        law_word_drawn_left_to_right(word.drop_last(), src);
        let a = glyph_line(word.drop_last(), src);
        let b = glyph_cell(word.last(), src);
        law_drawn_width(word.drop_last(), src);
        assert(a.len() >= 7);
        assert(glyph_line(word, src) == a + seq![' ', ' '] + b);
        assert((a + seq![' ', ' '] + b).take(7) =~= a.take(7));
        assert(word.drop_last()[0] == word[0]);
        assert((a + seq![' ', ' '] + b).skip((a + seq![' ', ' '] + b).len() - 7) =~= b);
    }
}

/// A lyricsfile that gives words comes first: its lyrics are the ones
/// chosen, whatever synchronised and plain lyrics come with it.
pub proof fn law_file_first(
    f: crate::lyricsfile::LyricsFile,
    synced: Option<Seq<char>>,
    plain: Option<Seq<char>>,
    d: Option<nat>,
    from_file: crate::lyrics::Lyrics,
    r: Result<Option<crate::lyrics::Lyrics>, crate::lrc::TimestampOverflow>,
)
    requires
        crate::lookup::chosen_lyrics(Some(f), synced, plain, d, r),
        crate::lyricsfile::file_lyrics(f, d, Some(from_file)),
    ensures
        r matches Ok(Some(l)),
        r->Ok_0->0.source == from_file.source,
        crate::lyrics::words_view(r->Ok_0->0.words@) == crate::lyrics::words_view(from_file.words@),
{
    let ls = crate::lyricsfile::lines_of_file(f);
    assert(crate::lookup::file_gives(f, d));
}

/// Plain lyrics come last: where no lyricsfile gives words and there are no
/// synchronised lyrics, or they fit and give no words, plain lyrics on a
/// track of known length that give words are the ones chosen.
pub proof fn law_plain_last(
    lyrics_file: Option<crate::lyricsfile::LyricsFile>,
    synced: Option<Seq<char>>,
    p: Seq<char>,
    d: nat,
    r: Result<Option<crate::lyrics::Lyrics>, crate::lrc::TimestampOverflow>,
)
    requires
        crate::lookup::chosen_lyrics(lyrics_file, synced, Some(p), Some(d), r),
        lyrics_file matches Some(f) ==> crate::lyricsfile::file_lyrics(f, Some(d), None),
        synced matches Some(s) ==> crate::lrc::enhanced_fits(s) && crate::lrc::lrc_fits(s)
            && enhanced_words(s).len() == 0 && line_lrc_words(s).len() == 0,
        plain_words(p, Some(d)).len() > 0,
    ensures
        r matches Ok(Some(l)),
        r->Ok_0->0.source == crate::lyrics::LyricsSource::PlainApprox,
        crate::lyrics::words_view(r->Ok_0->0.words@) == plain_words(p, Some(d)),
{
    if let Some(f) = lyrics_file {
        let ls = crate::lyricsfile::lines_of_file(f);
        assert(!crate::lookup::file_gives(f, Some(d))) by {
            if crate::lyricsfile::file_words(ls).len() > 0 {
            } else if estimate_words(crate::order::sort_by_start(crate::lyricsfile::file_lines(ls))).len()
                > 0 {
            } else {
            }
        }
    }
}

} // verus!
