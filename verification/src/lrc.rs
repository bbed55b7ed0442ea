use vstd::prelude::*;

use crate::duration::{Duration, MAX_NANOS};
use crate::lyrics::{
    Word, WordView,    line_view,
    Lyrics, LyricsSource, lyrics_of, lyrics_from_words, LineView, TimedLine, estimate_words, estimate_adaptive_timing, lines_view,
    words_view,
};
use crate::order::{sort_by_start, sort_by_start_vec};
use crate::text::{
    words_of, string_of,
    trim, find_char, lines_of, chars_of, trim_bounds, find_in, next_line, copy_range,
    lemma_find_char,
};
use crate::timestamp::{timestamp_nanos, read_timestamp, StampRead};
use crate::timing::{
    nanos_of, total, weight_of, sat_total, split_words, weights, mul_div_round,
    LyricWord,
};
use crate::timestamp::round_even;
use crate::duration::clamp_nanos;

verus! {

/// A timestamp in the text was longer than the longest `Duration`.
#[derive(Debug, Clone, Copy, PartialEq, Eq, Structural)]
pub struct TimestampOverflow;

/// The values of the `[timestamp]` groups at the start of `line`, and how
/// many chars they take; the groups end at the first that is not one.
pub open spec fn leading_stamps(line: Seq<char>) -> (Seq<nat>, nat)
    decreases line.len(),
{
    if line.len() > 0 && line[0] == '[' {
        match find_char(line, ']') {
            Some(c) => {
                proof {
                    lemma_find_char(line, ']');
                }
                match timestamp_nanos(line.subrange(1, c)) {
                    Some(v) => {
                        let (rest, k) = leading_stamps(line.skip(c + 1));
                        (seq![v] + rest, (k + c + 1) as nat)
                    },
                    None => (seq![], 0),
                }
            },
            None => (seq![], 0),
        }
    } else {
        (seq![], 0)
    }
}

/// Whether every value in `vs` fits in a `Duration`.
pub open spec fn all_fit(vs: Seq<nat>) -> bool {
    forall|i: int| 0 <= i < vs.len() ==> #[trigger] vs[i] <= MAX_NANOS
}

/// The timed lines that one LRC line gives: one for each of its leading
/// timestamps, all with the text after them, trimmed; none where there is no
/// timestamp or no text.
pub open spec fn lrc_line_entries(raw: Seq<char>) -> Seq<LineView> {
    let line = trim(raw);
    let (stamps, k) = leading_stamps(line);
    let content = trim(line.skip(k as int));
    if stamps.len() == 0 || content.len() == 0 {
        seq![]
    } else {
        stamps.map_values(|t: nat| LineView { start: t, end: None, text: content })
    }
}

/// The timed lines of the LRC lines `ls`, line after line.
pub open spec fn entries_of_lines(ls: Seq<Seq<char>>) -> Seq<LineView>
    decreases ls.len(),
{
    if ls.len() == 0 {
        seq![]
    } else {
        entries_of_lines(ls.drop_last()) + lrc_line_entries(ls.last())
    }
}

/// The timed lines of LRC text, line after line.
pub open spec fn lrc_entries(s: Seq<char>) -> Seq<LineView> {
    entries_of_lines(lines_of(s))
}

/// The values of the leading timestamps of a line, once trimmed.
pub open spec fn line_stamps(l: Seq<char>) -> Seq<nat> {
    leading_stamps(trim(l)).0
}

/// Whether every timestamp that the LRC reader reads in `s` fits in a `Duration`.
pub open spec fn lrc_fits(s: Seq<char>) -> bool {
    forall|i: int| 0 <= i < lines_of(s).len() ==> all_fit(#[trigger] line_stamps(lines_of(s)[i]))
}

/// Whether two timed lines start together with the same text.
pub open spec fn same_line(a: LineView, b: LineView) -> bool {
    a.start == b.start && a.text == b.text
}

/// `s` without the lines that repeat the line kept before them, as
/// `Vec::dedup_by` leaves it.
pub open spec fn dedup_lines(s: Seq<LineView>) -> Seq<LineView>
    decreases s.len(),
{
    if s.len() == 0 {
        s
    } else {
        let d = dedup_lines(s.drop_last());
        if d.len() > 0 && same_line(s.last(), d.last()) {
            d
        } else {
            d.push(s.last())
        }
    }
}

/// The words of LRC text: its timed lines in order of start, repeats
/// dropped, words timed within their lines.
pub open spec fn line_lrc_words(s: Seq<char>) -> Seq<crate::lyrics::WordView> {
    estimate_words(dedup_lines(sort_by_start(lrc_entries(s))))
}

/// Reads the leading `[timestamp]` groups of `s[lo..hi]`.
fn scan_stamps(s: &Vec<char>, lo: usize, hi: usize) -> (r: Result<(Vec<Duration>, usize), TimestampOverflow>)
    requires
        lo <= hi <= s.len(),
    ensures
        match r {
            Ok((v, k)) => {
                &&& lo <= k <= hi
                &&& leading_stamps(s@.subrange(lo as int, hi as int)) == (nanos_of(v@), (k - lo) as nat)
                &&& all_fit(nanos_of(v@))
            },
            Err(_) => !all_fit(leading_stamps(s@.subrange(lo as int, hi as int)).0),
        },
{
    let mut v: Vec<Duration> = Vec::new();
    let mut pos = lo;
    let ghost whole = leading_stamps(s@.subrange(lo as int, hi as int));
    loop
        invariant
            lo <= pos <= hi <= s.len(),
            whole == leading_stamps(s@.subrange(lo as int, hi as int)),
            whole.0 == nanos_of(v@) + leading_stamps(s@.subrange(pos as int, hi as int)).0,
            whole.1 == (pos - lo) + leading_stamps(s@.subrange(pos as int, hi as int)).1,
            all_fit(nanos_of(v@)),
        decreases hi - pos,
    {
        let ghost rest = s@.subrange(pos as int, hi as int);
        if pos >= hi || s[pos] != '[' {
            assert(leading_stamps(rest) == (Seq::<nat>::empty(), 0nat));
            assert(nanos_of(v@) + Seq::<nat>::empty() =~= nanos_of(v@));
            return Ok((v, pos));
        }
        let close = match find_in(s, pos, hi, ']') {
            Some(c) => c,
            None => {
                assert(leading_stamps(rest) == (Seq::<nat>::empty(), 0nat));
                assert(nanos_of(v@) + Seq::<nat>::empty() =~= nanos_of(v@));
                return Ok((v, pos));
            },
        };
        proof {
            lemma_find_char(rest, ']');
            assert(rest.subrange(1, close - pos) =~= s@.subrange(pos + 1, close as int));
            assert(rest.skip(close - pos + 1) =~= s@.subrange(close + 1, hi as int));
        }
        match read_timestamp(s, pos + 1, close) {
            StampRead::Invalid => {
                assert(leading_stamps(rest) == (Seq::<nat>::empty(), 0nat));
                assert(nanos_of(v@) + Seq::<nat>::empty() =~= nanos_of(v@));
                return Ok((v, pos));
            },
            StampRead::TooLarge => {
                proof {
                    let val = timestamp_nanos(s@.subrange(pos + 1, close as int))->0;
                    assert(whole.0[v.len() as int] == val);
                }
                return Err(TimestampOverflow);
            },
            StampRead::Nanos(n) => {
                let ghost prev = v@;
                v.push(Duration::from_nanos_saturating(n));
                assert(nanos_of(v@) =~= nanos_of(prev).push(n as nat));
                assert(nanos_of(v@) + leading_stamps(s@.subrange(close + 1, hi as int)).0 =~= nanos_of(prev)
                    + (seq![n as nat] + leading_stamps(s@.subrange(close + 1, hi as int)).0));
                pos = close + 1;
            },
        }
    }
}

/// The timed lines of the LRC line `s[lo..hi]`, added to `out`.
fn line_entries(s: &Vec<char>, lo: usize, hi: usize, out: &mut Vec<TimedLine>) -> (r: Result<(), TimestampOverflow>)
    requires
        lo <= hi <= s.len(),
    ensures
        match r {
            Ok(_) => {
                &&& all_fit(leading_stamps(trim(s@.subrange(lo as int, hi as int))).0)
                &&& lines_view(final(out)@) == lines_view(old(out)@) + lrc_line_entries(s@.subrange(lo as int, hi as int))
            },
            Err(_) => !all_fit(leading_stamps(trim(s@.subrange(lo as int, hi as int))).0),
        },
{
    let (a, b) = trim_bounds(s, lo, hi);
    let ghost line = s@.subrange(a as int, b as int);
    let (stamps, k) = match scan_stamps(s, a, b) {
        Ok(x) => x,
        Err(e) => {
            return Err(e);
        },
    };
    let (c, d) = trim_bounds(s, k, b);
    assert(line.skip(k - a) =~= s@.subrange(k as int, b as int));
    if stamps.len() == 0 || c == d {
        assert(lines_view(out@) + Seq::<LineView>::empty() =~= lines_view(out@));
        return Ok(());
    }
    let ghost content = s@.subrange(c as int, d as int);
    let ghost before = lines_view(out@);
    let ghost entries = lrc_line_entries(s@.subrange(lo as int, hi as int));
    let mut i: usize = 0;
    while i < stamps.len()
        invariant
            i <= stamps.len(),
            c <= d <= s.len(),
            content == s@.subrange(c as int, d as int),
            entries == nanos_of(stamps@).map_values(|t: nat| LineView { start: t, end: None, text: content }),
            lines_view(out@) == before + entries.take(i as int),
        decreases stamps.len() - i,
    {
        let text = copy_range(s, c, d);
        let ghost prev = lines_view(out@);
        out.push(TimedLine { start: stamps[i], end: None, text });
        assert(lines_view(out@) =~= prev.push(entries[i as int]));
        assert(entries.take(i + 1) =~= entries.take(i as int).push(entries[i as int]));
        i = i + 1;
    }
    assert(entries.take(i as int) =~= entries);
    Ok(())
}

/// The timed lines of LRC text, as `lrc_entries` says.
fn lrc_lines(s: &Vec<char>) -> (r: Result<Vec<TimedLine>, TimestampOverflow>)
    ensures
        match r {
            Ok(v) => lrc_fits(s@) && lines_view(v@) == lrc_entries(s@),
            Err(_) => !lrc_fits(s@),
        },
{
    let hi = s.len();
    let mut out: Vec<TimedLine> = Vec::new();
    let mut pos: usize = 0;
    let ghost all = lines_of(s@);
    assert(s@.subrange(0, hi as int) =~= s@);
    let ghost mut done: Seq<Seq<char>> = seq![];
    assert(all =~= done + lines_of(s@.subrange(pos as int, hi as int)));
    assert(lines_view(out@) =~= entries_of_lines(done));
    while pos < hi
        invariant
            pos <= hi == s.len(),
            all == lines_of(s@),
            all == done + lines_of(s@.subrange(pos as int, hi as int)),
            lines_view(out@) == entries_of_lines(done),
            forall|i: int| 0 <= i < done.len() ==> all_fit(#[trigger] line_stamps(done[i])),
        decreases hi - pos,
    {
        let (end, next) = next_line(s, pos, hi);
        let ghost line = s@.subrange(pos as int, end as int);
        match line_entries(s, pos, end, &mut out) {
            Err(e) => {
                proof {
                    assert(all[done.len() as int] == line);
                    assert(!all_fit(line_stamps(all[done.len() as int])));
                }
                return Err(e);
            },
            Ok(_) => {},
        }
        proof {
            let nd = done.push(line);
            assert(all =~= nd + lines_of(s@.subrange(next as int, hi as int)));
            assert(nd.drop_last() =~= done);
            assert forall|i: int| 0 <= i < nd.len() implies all_fit(#[trigger] line_stamps(nd[i])) by {
                if i < done.len() {
                    assert(nd[i] == done[i]);
                }
            }
            done = nd;
        }
        pos = next;
    }
    proof {
        assert(lines_of(s@.subrange(pos as int, hi as int)) =~= Seq::<Seq<char>>::empty());
        assert(all =~= done);
    }
    Ok(out)
}

/// Whether `a` and `b` hold the same chars.
pub fn chars_eq(a: &Vec<char>, b: &Vec<char>) -> (r: bool)
    ensures
        r == (a@ == b@),
{
    if a.len() != b.len() {
        return false;
    }
    let mut i: usize = 0;
    while i < a.len()
        invariant
            i <= a.len() == b.len(),
            forall|j: int| 0 <= j < i ==> a@[j] == b@[j],
        decreases a.len() - i,
    {
        if a[i] != b[i] {
            return false;
        }
        i = i + 1;
    }
    assert(a@ =~= b@);
    true
}

/// `lines` without the lines that repeat the line kept before them, as
/// `dedup_lines` says.
fn dedup_timed_lines(lines: &Vec<TimedLine>) -> (r: Vec<TimedLine>)
    ensures
        lines_view(r@) == dedup_lines(lines_view(lines@)),
{
    let ghost lv = lines_view(lines@);
    let mut out: Vec<TimedLine> = Vec::new();
    let mut i: usize = 0;
    assert(lv.take(0) =~= Seq::<LineView>::empty());
    while i < lines.len()
        invariant
            i <= lines.len(),
            lv == lines_view(lines@),
            lines_view(out@) == dedup_lines(lv.take(i as int)),
        decreases lines.len() - i,
    {
        let line = &lines[i];
        assert(lv.take(i + 1).drop_last() =~= lv.take(i as int));
        assert(lv.take(i + 1).last() == line_view(*line));
        let n = out.len();
        let repeat = n > 0 && out[n - 1].start.same_as(&line.start) && chars_eq(
            &out[n - 1].text,
            &line.text,
        );
        if !repeat {
            let text = copy_range(&line.text, 0, line.text.len());
            assert(line.text@.subrange(0, line.text.len() as int) =~= line.text@);
            let ghost prev = lines_view(out@);
            out.push(TimedLine { start: line.start, end: line.end, text });
            assert(lines_view(out@) =~= prev.push(line_view(*line)));
        }
        i = i + 1;
    }
    assert(lv.take(i as int) =~= lv);
    out
}

/// Lyrics from LRC text whose lines start with `[mm:ss.xx]` timestamps, one
/// or more; `Err` where a timestamp is longer than the longest `Duration`.
pub fn try_parse_line_lrc(text: &str) -> (r: Result<Option<Lyrics>, TimestampOverflow>)
    ensures
        match r {
            Ok(o) => lrc_fits(text@) && lyrics_of(o, line_lrc_words(text@), LyricsSource::SyncedLrc),
            Err(_) => !lrc_fits(text@),
        },
{
    let chars = chars_of(text);
    let lines = match lrc_lines(&chars) {
        Ok(l) => l,
        Err(e) => {
            return Err(e);
        },
    };
    let sorted = sort_by_start_vec(lines);
    proof {
        crate::order::lemma_sort_map(lines@, |l: TimedLine| line_view(l));
        assert(lines_view(lines@) =~= lines@.map_values(|l: TimedLine| line_view(l)));
    }
    let unique = dedup_timed_lines(&sorted);
    let words = estimate_adaptive_timing(&unique);
    Ok(lyrics_from_words(words, LyricsSource::SyncedLrc))
}

/// Lyrics from LRC text whose lines start with `[mm:ss.xx]` timestamps, one
/// or more: each timestamp gives a line with the text after the timestamps;
/// repeated lines are dropped and words timed within their lines.
pub fn parse_line_lrc_adaptive(text: &str) -> (r: Option<Lyrics>)
    requires
        lrc_fits(text@),
    ensures
        lyrics_of(r, line_lrc_words(text@), LyricsSource::SyncedLrc),
{
    match try_parse_line_lrc(text) {
        Ok(o) => o,
        Err(_) => None,
    }
}

// ---------------------------------------------------------------------------
// Enhanced LRC: `<mm:ss.xx>` before each word or group of words.

/// Nanoseconds spread over the words of one group: 80 ms.
pub open spec fn group_span() -> nat {
    80_000_000
}

/// The delays of the words of a group after the first, by weight: shares of
/// 80 ms, rounded to the nearest nanosecond (halves to even).
pub open spec fn group_steps(ws: Seq<nat>) -> Seq<nat> {
    Seq::new(
        ws.len(),
        |k: int|
            if total(ws) > 0 {
                round_even(group_span() * ws[k], total(ws))
            } else {
                round_even(group_span(), ws.len())
            },
    )
}

/// The words of a group of text stamped `ts`: the first at `ts`, each next one
/// after the steps of those before it.
pub open spec fn group_words(word: Seq<char>, ts: nat) -> Seq<WordView> {
    let split = words_of(word);
    if split.len() == 1 {
        seq![WordView { text: split[0], start: ts }]
    } else {
        let steps = group_steps(split.map_values(|w: Seq<char>| weight_of(w)));
        Seq::new(
            split.len(),
            |k: int| WordView { text: split[k], start: clamp_nanos(ts + sat_total(steps.take(k))) },
        )
    }
}

/// The timed words of the rest `r` of a line, from the next `<` on.
pub open spec fn enhanced_scan(r: Seq<char>) -> Seq<WordView>
    decreases r.len(),
{
    match find_char(r, '<') {
        None => seq![],
        Some(o) => {
            proof {
                lemma_find_char(r, '<');
            }
            let after = r.skip(o + 1);
            match find_char(after, '>') {
                None => seq![],
                Some(c) => {
                    proof {
                        lemma_find_char(after, '>');
                    }
                    match timestamp_nanos(after.take(c)) {
                        None => enhanced_scan(after),
                        Some(ts) => {
                            let after_ts = after.skip(c + 1);
                            let word_end = match find_char(after_ts, '<') {
                                Some(e) => e,
                                None => after_ts.len() as int,
                            };
                            let word = trim(after_ts.take(word_end));
                            let here = if word.len() == 0 {
                                seq![]
                            } else {
                                group_words(word, ts)
                            };
                            here + enhanced_scan(after_ts)
                        },
                    }
                },
            }
        },
    }
}

/// The values of the `<timestamp>` marks read in the rest `r` of a line.
pub open spec fn enhanced_stamps(r: Seq<char>) -> Seq<nat>
    decreases r.len(),
{
    match find_char(r, '<') {
        None => seq![],
        Some(o) => {
            proof {
                lemma_find_char(r, '<');
            }
            let after = r.skip(o + 1);
            match find_char(after, '>') {
                None => seq![],
                Some(c) => {
                    proof {
                        lemma_find_char(after, '>');
                    }
                    match timestamp_nanos(after.take(c)) {
                        None => enhanced_stamps(after),
                        Some(ts) => seq![ts] + enhanced_stamps(after.skip(c + 1)),
                    }
                },
            }
        },
    }
}

/// The timed words of the enhanced LRC lines `ls`, line after line.
pub open spec fn enhanced_of_lines(ls: Seq<Seq<char>>) -> Seq<WordView>
    decreases ls.len(),
{
    if ls.len() == 0 {
        seq![]
    } else {
        enhanced_of_lines(ls.drop_last()) + enhanced_scan(ls.last())
    }
}

/// The words of enhanced LRC text, in order of their start.
pub open spec fn enhanced_words(s: Seq<char>) -> Seq<WordView> {
    sort_by_start(enhanced_of_lines(lines_of(s)))
}

/// Whether every `<timestamp>` mark read in `s` fits in a `Duration`.
pub open spec fn enhanced_fits(s: Seq<char>) -> bool {
    forall|i: int|
        0 <= i < lines_of(s).len() ==> all_fit(#[trigger] enhanced_stamps(lines_of(s)[i]))
}

/// The words of the group `s[lo..hi]` (trimmed, not empty) stamped `ts`, added to `out`.
fn push_group(s: &Vec<char>, lo: usize, hi: usize, ts: Duration, out: &mut Vec<Word>)
    requires
        lo <= hi <= s.len(),
        words_of(s@.subrange(lo as int, hi as int)).len() > 0,
    ensures
        words_view(final(out)@) == words_view(old(out)@) + group_words(
            s@.subrange(lo as int, hi as int),
            ts@,
        ),
{
    let split = split_words(s, lo, hi);
    let ghost word = s@.subrange(lo as int, hi as int);
    let ghost sp = words_of(word);
    assert(split@.map_values(|w: LyricWord| w.text@)[0] == split[0].text@);
    if split.len() == 1 {
        let text = string_of(split[0].text.as_slice());
        let ghost prev = words_view(out@);
        out.push(Word { text, start: ts });
        assert(words_view(out@) =~= prev + seq![WordView { text: sp[0], start: ts@ }]);
        return;
    }
    let ghost ws = sp.map_values(|w: Seq<char>| weight_of(w));
    assert(weights(split@) =~= ws) by {
        assert forall|k: int| 0 <= k < sp.len() implies weights(split@)[k] == ws[k] by {
            assert(split@.map_values(|w: LyricWord| w.text@)[k] == split[k].text@);
            assert(split[k].weight == weight_of(split[k].text@));
        }
        assert(split@.map_values(|w: LyricWord| w.text@).len() == sp.len());
    }
    assert(total(ws) <= 1u128 << 100u128) by {
        assert(1u128 << 100u128 == 0x10000000000000000000000000u128) by (bit_vector);
    }
    // The total weight.
    let mut sum: u128 = 0;
    let mut i: usize = 0;
    while i < split.len()
        invariant
            i <= split.len() == ws.len(),
            ws == weights(split@),
            total(ws) <= 1u128 << 100u128,
            sum == total(ws.take(i as int)),
        decreases split.len() - i,
    {
        proof {
            crate::timing::lemma_total_step(ws, i as int);
            crate::timing::lemma_total_prefix_le(ws, (i + 1) as int);
        }
        sum = sum + split[i].weight;
        i = i + 1;
    }
    assert(ws.take(i as int) =~= ws);
    let ghost steps = group_steps(ws);
    let ghost expected = group_words(word, ts@);
    let ghost before = words_view(out@);
    let n = split.len();
    let mut offset = Duration::zero();
    let mut k: usize = 0;
    while k < n
        invariant
            k <= n == split.len() == ws.len() == sp.len(),
            n != 1,
            ws == weights(split@),
            sum == total(ws),
            split@.map_values(|w: LyricWord| w.text@) == sp,
            steps == group_steps(ws),
            expected == group_words(word, ts@),
            sp == words_of(word),
            ws == sp.map_values(|w: Seq<char>| weight_of(w)),
            offset@ == sat_total(steps.take(k as int)),
            words_view(out@) == before + expected.take(k as int),
        decreases n - k,
    {
        let text = string_of(split[k].text.as_slice());
        assert(split@.map_values(|w: LyricWord| w.text@)[k as int] == split[k as int].text@);
        let start = ts.saturating_add(offset);
        let ghost prev = words_view(out@);
        out.push(Word { text, start });
        assert(expected[k as int] == WordView { text: sp[k as int], start: start@ });
        assert(words_view(out@) =~= prev.push(expected[k as int]));
        assert(expected.take(k + 1) =~= expected.take(k as int).push(expected[k as int]));
        let step_nanos = if sum > 0 {
            proof {
                crate::timing::lemma_elem_le_total(ws, k as int);
            }
            mul_div_round(80_000_000, split[k].weight, sum)
        } else {
            mul_div_round(80_000_000, 1, n as u128)
        };
        assert(step_nanos == steps[k as int]);
        proof {
            assert(steps.take(k + 1).drop_last() =~= steps.take(k as int));
        }
        offset = offset.saturating_add(Duration::from_nanos_saturating(step_nanos));
        k = k + 1;
    }
    assert(expected.take(k as int) =~= expected);
}

/// The timed words of the enhanced LRC line `s[lo..hi]`, added to `out`.
#[verifier::rlimit(100)]
fn enhanced_line(s: &Vec<char>, lo: usize, hi: usize, out: &mut Vec<Word>) -> (r: Result<(), TimestampOverflow>)
    requires
        lo <= hi <= s.len(),
    ensures
        match r {
            Ok(_) => {
                &&& all_fit(enhanced_stamps(s@.subrange(lo as int, hi as int)))
                &&& words_view(final(out)@) == words_view(old(out)@) + enhanced_scan(s@.subrange(lo as int, hi as int))
            },
            Err(_) => !all_fit(enhanced_stamps(s@.subrange(lo as int, hi as int))),
        },
{
    let ghost line = s@.subrange(lo as int, hi as int);
    let ghost before = words_view(out@);
    let ghost mut seen: Seq<nat> = seq![];
    let mut start = lo;
    assert(words_view(out@) + enhanced_scan(line) =~= before + enhanced_scan(line));
    assert(seen + enhanced_stamps(line) =~= enhanced_stamps(line));
    loop
        invariant
            lo <= start <= hi <= s.len(),
            line == s@.subrange(lo as int, hi as int),
            before == words_view(old(out)@),
            words_view(out@) + enhanced_scan(s@.subrange(start as int, hi as int)) == before
                + enhanced_scan(line),
            seen + enhanced_stamps(s@.subrange(start as int, hi as int)) == enhanced_stamps(line),
            all_fit(seen),
        decreases hi - start,
    {
        let ghost r = s@.subrange(start as int, hi as int);
        let open = match find_in(s, start, hi, '<') {
            None => {
                assert(enhanced_scan(r) =~= Seq::<WordView>::empty());
                assert(enhanced_stamps(r) =~= Seq::<nat>::empty());
                assert(words_view(out@) + Seq::<WordView>::empty() =~= words_view(out@));
                assert(seen + Seq::<nat>::empty() =~= seen);
                assert(enhanced_stamps(line) == seen);
                assert(words_view(out@) == before + enhanced_scan(line));
                return Ok(());
            },
            Some(o) => o,
        };
        proof {
            lemma_find_char(r, '<');
            assert(r.skip(open - start + 1) =~= s@.subrange(open + 1, hi as int));
        }
        let ghost after = s@.subrange(open + 1, hi as int);
        let close = match find_in(s, open + 1, hi, '>') {
            None => {
                assert(enhanced_scan(r) =~= Seq::<WordView>::empty());
                assert(enhanced_stamps(r) =~= Seq::<nat>::empty());
                assert(words_view(out@) + Seq::<WordView>::empty() =~= words_view(out@));
                assert(seen + Seq::<nat>::empty() =~= seen);
                assert(enhanced_stamps(line) == seen);
                assert(words_view(out@) == before + enhanced_scan(line));
                return Ok(());
            },
            Some(c) => c,
        };
        proof {
            lemma_find_char(after, '>');
            assert(after.take(close - open - 1) =~= s@.subrange(open + 1, close as int));
            assert(after.skip(close - open) =~= s@.subrange(close + 1, hi as int));
        }
        match read_timestamp(s, open + 1, close) {
            StampRead::Invalid => {
                start = open + 1;
            },
            StampRead::TooLarge => {
                proof {
                    let v = timestamp_nanos(s@.subrange(open + 1, close as int))->0;
                    assert(enhanced_stamps(line)[seen.len() as int] == v);
                }
                return Err(TimestampOverflow);
            },
            StampRead::Nanos(n) => {
                let ts = Duration::from_nanos_saturating(n);
                let ghost after_ts = s@.subrange(close + 1, hi as int);
                let word_end = match find_in(s, close + 1, hi, '<') {
                    Some(e) => e,
                    None => hi,
                };
                proof {
                    lemma_find_char(after_ts, '<');
                    assert(after_ts.take(word_end - close - 1) =~= s@.subrange(
                        close + 1,
                        word_end as int,
                    ));
                }
                let (a, b) = trim_bounds(s, close + 1, word_end);
                let ghost prev = words_view(out@);
                let ghost here = if a == b {
                    Seq::<WordView>::empty()
                } else {
                    group_words(s@.subrange(a as int, b as int), n as nat)
                };
                if a < b {
                    proof {
                        lemma_words_nonempty(s@.subrange(close + 1, word_end as int));
                    }
                    push_group(s, a, b, ts, out);
                } else {
                    assert(prev + Seq::<WordView>::empty() =~= prev);
                }
                assert(enhanced_scan(r) == here + enhanced_scan(after_ts));
                assert(words_view(out@) == prev + here);
                assert(words_view(out@) + enhanced_scan(after_ts) =~= prev + (here + enhanced_scan(after_ts)));
                assert(enhanced_stamps(r) == seq![n as nat] + enhanced_stamps(after_ts));
                proof {
                    assert(seen.push(n as nat) + enhanced_stamps(after_ts) =~= seen + (seq![n as nat]
                        + enhanced_stamps(after_ts)));
                    seen = seen.push(n as nat);
                }
                start = close + 1;
            },
        }
    }
}

/// A text that trims to something has a word.
proof fn lemma_words_nonempty(x: Seq<char>)
    requires
        trim(x).len() > 0,
    ensures
        words_of(trim(x)).len() > 0,
{
    crate::text::lemma_trim_head(x);
    crate::text::lemma_word_len(trim(x));
}

/// The timed words of enhanced LRC text, line after line.
fn enhanced_lines(s: &Vec<char>) -> (r: Result<Vec<Word>, TimestampOverflow>)
    ensures
        match r {
            Ok(v) => enhanced_fits(s@) && words_view(v@) == enhanced_of_lines(lines_of(s@)),
            Err(_) => !enhanced_fits(s@),
        },
{
    let hi = s.len();
    let mut out: Vec<Word> = Vec::new();
    let mut pos: usize = 0;
    let ghost all = lines_of(s@);
    assert(s@.subrange(0, hi as int) =~= s@);
    let ghost mut done: Seq<Seq<char>> = seq![];
    assert(all =~= done + lines_of(s@.subrange(pos as int, hi as int)));
    assert(words_view(out@) =~= enhanced_of_lines(done));
    while pos < hi
        invariant
            pos <= hi == s.len(),
            all == lines_of(s@),
            all == done + lines_of(s@.subrange(pos as int, hi as int)),
            words_view(out@) == enhanced_of_lines(done),
            forall|i: int| 0 <= i < done.len() ==> all_fit(#[trigger] enhanced_stamps(done[i])),
        decreases hi - pos,
    {
        let (end, next) = next_line(s, pos, hi);
        let ghost line = s@.subrange(pos as int, end as int);
        match enhanced_line(s, pos, end, &mut out) {
            Err(e) => {
                proof {
                    assert(all[done.len() as int] == line);
                    assert(!all_fit(enhanced_stamps(all[done.len() as int])));
                }
                return Err(e);
            },
            Ok(_) => {},
        }
        proof {
            let nd = done.push(line);
            assert(all =~= nd + lines_of(s@.subrange(next as int, hi as int)));
            assert(nd.drop_last() =~= done);
            assert forall|i: int| 0 <= i < nd.len() implies all_fit(#[trigger] enhanced_stamps(nd[i])) by {
                if i < done.len() {
                    assert(nd[i] == done[i]);
                }
            }
            done = nd;
        }
        pos = next;
    }
    proof {
        assert(lines_of(s@.subrange(pos as int, hi as int)) =~= Seq::<Seq<char>>::empty());
        assert(all =~= done);
    }
    Ok(out)
}

/// Lyrics from enhanced LRC text, where `<mm:ss.xx>` marks stand before words;
/// `Err` where a mark is longer than the longest `Duration`.
pub fn try_parse_enhanced_lrc(text: &str) -> (r: Result<Option<Lyrics>, TimestampOverflow>)
    ensures
        match r {
            Ok(o) => enhanced_fits(text@) && lyrics_of(o, enhanced_words(text@), LyricsSource::SyncedLrc),
            Err(_) => !enhanced_fits(text@),
        },
{
    let chars = chars_of(text);
    let words = match enhanced_lines(&chars) {
        Ok(w) => w,
        Err(e) => {
            return Err(e);
        },
    };
    let sorted = sort_by_start_vec(words);
    proof {
        crate::order::lemma_sort_map(words@, |w: Word| crate::lyrics::word_view(w));
        crate::order::lemma_sort_sorted(words@);
    }
    assert(sorted.len() == words.len());
    Ok(lyrics_from_words(sorted, LyricsSource::SyncedLrc))
}

/// Lyrics from enhanced LRC text, where `<mm:ss.xx>` marks stand before words:
/// the text after each mark, up to the next `<`, gives its words, the first at
/// the mark and the others 80 ms apart in all, by weight.
pub fn parse_enhanced_lrc(text: &str) -> (r: Option<Lyrics>)
    requires
        enhanced_fits(text@),
    ensures
        lyrics_of(r, enhanced_words(text@), LyricsSource::SyncedLrc),
{
    match try_parse_enhanced_lrc(text) {
        Ok(o) => o,
        Err(_) => None,
    }
}

} // verus!
