use vstd::prelude::*;

use crate::duration::{Duration, NANOS_PER_MILLI};
use crate::lyrics::{
    Lyrics, LyricsSource, LineView, TimedLine, WordView, estimate_words, estimate_adaptive_timing,
    lines_view, lyrics_of, lyrics_from_words,
};
use crate::text::{trim, lines_of, chars_of, trim_bounds, next_line, copy_range};
use crate::timestamp::round_even;
use crate::timing::{mul_div_round, opt_nanos};

verus! {

/// The lines of `ls` that are not blank, trimmed.
pub open spec fn nonblank_lines(ls: Seq<Seq<char>>) -> Seq<Seq<char>>
    decreases ls.len(),
{
    if ls.len() == 0 {
        seq![]
    } else if trim(ls.last()).len() > 0 {
        nonblank_lines(ls.drop_last()).push(trim(ls.last()))
    } else {
        nonblank_lines(ls.drop_last())
    }
}

/// The lines `ls` spread evenly over a track of `d` nanoseconds: line `i` of
/// `n` from `d * i / n` to `d * (i + 1) / n`, rounded (halves to even), the last to the end.
pub open spec fn spread_lines(ls: Seq<Seq<char>>, d: nat) -> Seq<LineView> {
    Seq::new(
        ls.len(),
        |i: int|
            LineView {
                start: round_even(d * i as nat, ls.len()),
                end: Some(
                    if i + 1 < ls.len() {
                        round_even(d * (i + 1) as nat, ls.len())
                    } else {
                        d
                    },
                ),
                text: ls[i],
            },
    )
}

/// The lines `ls` five seconds apart, with no end.
pub open spec fn paced_lines(ls: Seq<Seq<char>>) -> Seq<LineView> {
    Seq::new(
        ls.len(),
        |i: int| LineView { start: (i * 5000 * NANOS_PER_MILLI) as nat, end: None, text: ls[i] },
    )
}

/// The timed words of plain lyrics `s` on a track of `duration` nanoseconds,
/// or five seconds a line where its length is not known; none on a track of
/// length zero.
pub open spec fn plain_words(s: Seq<char>, duration: Option<nat>) -> Seq<WordView> {
    let ls = nonblank_lines(lines_of(s));
    match duration {
        Some(d) => if d == 0 {
            seq![]
        } else {
            estimate_words(spread_lines(ls, d))
        },
        None => estimate_words(paced_lines(ls)),
    }
}

/// Whether the five-second pacing of the lines of `s` stays within `u64`
/// milliseconds.
pub open spec fn pace_fits(s: Seq<char>) -> bool {
    nonblank_lines(lines_of(s)).len() * 5000 <= u64::MAX + 5000
}

/// The nonblank lines of `s`, trimmed.
fn nonblank(s: &Vec<char>) -> (r: Vec<Vec<char>>)
    ensures
        r@.map_values(|l: Vec<char>| l@) == nonblank_lines(lines_of(s@)),
{
    let hi = s.len();
    let mut out: Vec<Vec<char>> = Vec::new();
    let mut pos: usize = 0;
    let ghost all = lines_of(s@);
    assert(s@.subrange(0, hi as int) =~= s@);
    let ghost mut done: Seq<Seq<char>> = seq![];
    assert(all =~= done + lines_of(s@.subrange(pos as int, hi as int)));
    assert(out@.map_values(|l: Vec<char>| l@) =~= nonblank_lines(done));
    while pos < hi
        invariant
            pos <= hi == s.len(),
            all == lines_of(s@),
            all == done + lines_of(s@.subrange(pos as int, hi as int)),
            out@.map_values(|l: Vec<char>| l@) == nonblank_lines(done),
        decreases hi - pos,
    {
        let (end, next) = next_line(s, pos, hi);
        let ghost line = s@.subrange(pos as int, end as int);
        let (a, b) = trim_bounds(s, pos, end);
        let ghost prev = out@;
        if a < b {
            out.push(copy_range(s, a, b));
            assert(out@.map_values(|l: Vec<char>| l@) =~= prev.map_values(|l: Vec<char>| l@).push(
                trim(line),
            ));
        }
        proof {
            let nd = done.push(line);
            assert(all =~= nd + lines_of(s@.subrange(next as int, hi as int)));
            assert(nd.drop_last() =~= done);
            done = nd;
        }
        pos = next;
    }
    proof {
        assert(lines_of(s@.subrange(pos as int, hi as int)) =~= Seq::<Seq<char>>::empty());
        assert(all =~= done);
    }
    out
}

/// Lyrics from plain text on a track of the given length: the nonblank lines
/// spread evenly over the track, or five seconds apart where the length is not
/// known; `None` on a track of length zero or for text with no words.
pub fn parse_plain_lyrics_internal(text: &str, duration: Option<Duration>) -> (r: Option<Lyrics>)
    requires
        duration is None ==> pace_fits(text@),
    ensures
        lyrics_of(r, plain_words(text@, opt_nanos(duration)), LyricsSource::PlainApprox),
{
    let chars = chars_of(text);
    let lines = nonblank(&chars);
    let ghost ls = nonblank_lines(lines_of(text@));
    let n = lines.len();
    assert(lines@.map_values(|l: Vec<char>| l@).len() == n);
    if n == 0 {
        proof {
            assert(ls.len() == 0);
            lemma_no_lines_no_words(ls, opt_nanos(duration));
        }
        return None;
    }
    let mut timed: Vec<TimedLine> = Vec::new();
    match duration {
        Some(d) => {
            if d.is_zero() {
                return None;
            }
            let dn = d.as_nanos();
            let ghost expected = spread_lines(ls, d@);
            let mut i: usize = 0;
            while i < n
                invariant
                    i <= n == lines.len() == ls.len(),
                    n > 0,
                    dn == d@,
                    dn <= crate::duration::MAX_NANOS,
                    lines@.map_values(|l: Vec<char>| l@) == ls,
                    expected == spread_lines(ls, d@),
                    lines_view(timed@) == expected.take(i as int),
                decreases n - i,
            {
                let start = mul_div_round(dn, i as u128, n as u128);
                let end = if i + 1 < n {
                    mul_div_round(dn, (i + 1) as u128, n as u128)
                } else {
                    dn
                };
                let text = copy_range(&lines[i], 0, lines[i].len());
                assert(lines[i as int]@.subrange(0, lines[i as int].len() as int) =~= lines[i as int]@);
                assert(lines@.map_values(|l: Vec<char>| l@)[i as int] == lines[i as int]@);
                let ghost prev = lines_view(timed@);
                timed.push(
                    TimedLine {
                        start: Duration::from_nanos_saturating(start),
                        end: Some(Duration::from_nanos_saturating(end)),
                        text,
                    },
                );
                assert(lines_view(timed@) =~= prev.push(expected[i as int]));
                assert(expected.take(i + 1) =~= expected.take(i as int).push(expected[i as int]));
                i = i + 1;
            }
            assert(expected.take(i as int) =~= expected);
        },
        None => {
            let ghost expected = paced_lines(ls);
            let mut i: usize = 0;
            while i < n
                invariant
                    i <= n == lines.len() == ls.len(),
                    n * 5000 <= u64::MAX + 5000,
                    lines@.map_values(|l: Vec<char>| l@) == ls,
                    expected == paced_lines(ls),
                    lines_view(timed@) == expected.take(i as int),
                decreases n - i,
            {
                assert(i * 5000 <= u64::MAX) by (nonlinear_arith)
                    requires
                        i < n,
                        n * 5000 <= u64::MAX + 5000,
                ;
                let start = Duration::from_millis(i as u64 * 5000);
                let text = copy_range(&lines[i], 0, lines[i].len());
                assert(lines[i as int]@.subrange(0, lines[i as int].len() as int) =~= lines[i as int]@);
                assert(lines@.map_values(|l: Vec<char>| l@)[i as int] == lines[i as int]@);
                let ghost prev = lines_view(timed@);
                timed.push(TimedLine { start, end: None, text });
                assert(lines_view(timed@) =~= prev.push(expected[i as int]));
                assert(expected.take(i + 1) =~= expected.take(i as int).push(expected[i as int]));
                i = i + 1;
            }
            assert(expected.take(i as int) =~= expected);
        },
    }
    let words = estimate_adaptive_timing(&timed);
    lyrics_from_words(words, LyricsSource::PlainApprox)
}

/// Lyrics from plain text, spread evenly over a track of known, nonzero length.
pub fn parse_plain_lyrics(text: &str, duration: Option<Duration>) -> (r: Option<Lyrics>)
    ensures
        match duration {
            None => r is None,
            Some(d) => lyrics_of(r, plain_words(text@, Some(d@)), LyricsSource::PlainApprox),
        },
{
    let d = match duration {
        Some(d) => d,
        None => {
            return None;
        },
    };
    if d.is_zero() {
        return None;
    }
    parse_plain_lyrics_internal(text, Some(d))
}

proof fn lemma_no_lines_no_words(ls: Seq<Seq<char>>, d: Option<nat>)
    requires
        ls.len() == 0,
    ensures
        match d {
            Some(dd) => dd == 0 || estimate_words(spread_lines(ls, dd)).len() == 0,
            None => estimate_words(paced_lines(ls)).len() == 0,
        },
{
    let a = spread_lines(ls, d.unwrap_or(0));
    assert(paced_lines(ls) =~= Seq::<LineView>::empty());
    assert(a =~= Seq::<LineView>::empty());
    assert(crate::lyrics::timed_words(Seq::<LineView>::empty(), 0) =~= Seq::<WordView>::empty());
}

/// How many lines of `text` are not blank.
pub fn count_nonblank(text: &str) -> (n: usize)
    ensures
        n == nonblank_lines(lines_of(text@)).len(),
{
    let chars = chars_of(text);
    let lines = nonblank(&chars);
    assert(lines@.map_values(|l: Vec<char>| l@).len() == lines.len());
    lines.len()
}

} // verus!
