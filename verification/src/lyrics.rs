use vstd::prelude::*;

use crate::duration::{Duration, clamp_nanos};
use crate::order::{Keyed, Timed, sort_by_start, sort_by_start_vec, lemma_sort_map};
use crate::text::{words_of, string_of};
use crate::timing::{
    allocate, weight_of, sat_total, weights, total, split_words, allocate_word_timing,
    nanos_of, opt_nanos, LyricWord,
};

verus! {

/// What a track is: title, artist, album and length.
#[derive(Debug, Clone, PartialEq)]
pub struct Track {
    pub title: String,
    pub artist: String,
    pub album: Option<String>,
    pub duration: Option<Duration>,
}

/// A word of the lyrics and when it starts.
#[derive(Debug, Clone)]
pub struct Word {
    pub text: String,
    pub start: Duration,
}

/// Where the timing of lyrics came from.
#[derive(Debug, Clone, Copy, PartialEq, Eq, Structural)]
pub enum LyricsSource {
    /// A lyricsfile with the start of every word.
    LyricsFileWord,
    /// A lyricsfile with the start of every line.
    LyricsFileLine,
    /// Synchronised LRC lyrics.
    SyncedLrc,
    /// Plain lyrics spread over the track.
    PlainApprox,
}

/// Timed lyrics: the words in order of their start, and where the timing came from.
#[derive(Debug, Clone)]
pub struct Lyrics {
    pub words: Vec<Word>,
    pub source: LyricsSource,
}

/// A word and its start, in nanoseconds.
pub struct WordView {
    pub text: Seq<char>,
    pub start: nat,
}

impl Keyed for WordView {
    open spec fn key(&self) -> nat {
        self.start
    }
}

impl Keyed for Word {
    open spec fn key(&self) -> nat {
        self.start@
    }
}

impl Timed for Word {
    fn start_nanos(&self) -> (n: u128) {
        self.start.as_nanos()
    }
}

/// The text and start of `w`.
pub open spec fn word_view(w: Word) -> WordView {
    WordView { text: w.text@, start: w.start@ }
}

/// The texts and starts of `ws`.
pub open spec fn words_view(ws: Seq<Word>) -> Seq<WordView> {
    ws.map_values(|w: Word| word_view(w))
}

/// A line of lyrics with its start and, where known, its end.
pub struct TimedLine {
    pub start: Duration,
    pub end: Option<Duration>,
    pub text: Vec<char>,
}

/// A line of lyrics with its start and end in nanoseconds.
pub struct LineView {
    pub start: nat,
    pub end: Option<nat>,
    pub text: Seq<char>,
}

impl Keyed for LineView {
    open spec fn key(&self) -> nat {
        self.start
    }
}

impl Keyed for TimedLine {
    open spec fn key(&self) -> nat {
        self.start@
    }
}

impl Timed for TimedLine {
    fn start_nanos(&self) -> (n: u128) {
        self.start.as_nanos()
    }
}

/// The start, end and text of `l`.
pub open spec fn line_view(l: TimedLine) -> LineView {
    LineView { start: l.start@, end: opt_nanos(l.end), text: l.text@ }
}

/// The starts, ends and texts of `ls`.
pub open spec fn lines_view(ls: Seq<TimedLine>) -> Seq<LineView> {
    ls.map_values(|l: TimedLine| line_view(l))
}

/// The time from the start of line `i` to the start of the next line, where
/// there is a next line that starts no earlier.
pub open spec fn gap_to_next(lines: Seq<LineView>, i: int) -> Option<nat> {
    if i + 1 < lines.len() && lines[i + 1].start >= lines[i].start {
        Some((lines[i + 1].start - lines[i].start) as nat)
    } else {
        None
    }
}

/// The time that line `i` lasts: up to its end where that is after its start,
/// else up to the next line.
pub open spec fn line_span(lines: Seq<LineView>, i: int) -> Option<nat> {
    match lines[i].end {
        Some(e) => if e > lines[i].start {
            Some((e - lines[i].start) as nat)
        } else {
            gap_to_next(lines, i)
        },
        None => gap_to_next(lines, i),
    }
}

/// The words of line `i`, each starting when the ones before it, given their
/// shares of the line's time, have passed.
pub open spec fn line_words(lines: Seq<LineView>, i: int) -> Seq<WordView> {
    let ws = words_of(lines[i].text);
    let alloc = allocate(ws.map_values(|w: Seq<char>| weight_of(w)), line_span(lines, i));
    Seq::new(
        ws.len(),
        |k: int| WordView { text: ws[k], start: clamp_nanos(lines[i].start + sat_total(alloc.take(k))) },
    )
}

/// The words of the first `n` lines, line after line.
pub open spec fn timed_words(lines: Seq<LineView>, n: int) -> Seq<WordView>
    decreases n,
{
    if n <= 0 {
        seq![]
    } else {
        timed_words(lines, n - 1) + line_words(lines, n - 1)
    }
}

/// The words of `lines`, timed within their lines, in order of their start.
pub open spec fn estimate_words(lines: Seq<LineView>) -> Seq<WordView> {
    sort_by_start(timed_words(lines, lines.len() as int))
}

/// Times the words of `lines`, as `estimate_words` says.
pub fn estimate_adaptive_timing(lines: &Vec<TimedLine>) -> (r: Vec<Word>)
    ensures
        words_view(r@) == estimate_words(lines_view(lines@)),
{
    let ghost lv = lines_view(lines@);
    let mut words: Vec<Word> = Vec::new();
    let mut index: usize = 0;
    while index < lines.len()
        invariant
            index <= lines.len(),
            lv == lines_view(lines@),
            words_view(words@) == timed_words(lv, index as int),
        decreases lines.len() - index,
    {
        let line = &lines[index];
        let n = line.text.len();
        let line_words_vec = split_words(&line.text, 0, n);
        assert(line.text@.subrange(0, n as int) =~= line.text@);
        let ghost ws = words_of(line.text@);
        assert(weights(line_words_vec@) =~= ws.map_values(|w: Seq<char>| weight_of(w))) by {
            assert forall|k: int| 0 <= k < ws.len() implies weights(line_words_vec@)[k] == ws.map_values(
                |w: Seq<char>| weight_of(w),
            )[k] by {
                assert(line_words_vec@.map_values(|w: LyricWord| w.text@)[k] == ws[k]);
                assert(line_words_vec[k].weight == weight_of(line_words_vec[k].text@));
            }
            assert(line_words_vec@.map_values(|w: LyricWord| w.text@).len() == ws.len());
        }
        assert(total(weights(line_words_vec@)) <= 1u128 << 100u128) by {
            assert(1u128 << 100u128 == 0x10000000000000000000000000u128) by (bit_vector);
        }
        let available = match line.end {
            Some(end) => {
                if line.start.lt(&end) {
                    Some(end.saturating_sub(line.start))
                } else {
                    next_gap(lines, index)
                }
            },
            None => next_gap(lines, index),
        };
        assert(opt_nanos(available) == line_span(lv, index as int));
        let allocations = allocate_word_timing(&line_words_vec, available);
        let ghost alloc = nanos_of(allocations@);
        let ghost expected = line_words(lv, index as int);
        let ghost before = words@;
        let mut elapsed = Duration::zero();
        let mut k: usize = 0;
        while k < line_words_vec.len()
            invariant
                k <= line_words_vec.len() == allocations.len(),
                ws.len() == line_words_vec.len(),
                line_words_vec@.map_values(|w: LyricWord| w.text@) == ws,
                elapsed@ == sat_total(alloc.take(k as int)),
                alloc == nanos_of(allocations@),
                expected.len() == ws.len(),
                forall|j: int| 0 <= j < ws.len() ==> #[trigger] expected[j] == (WordView {
                    text: ws[j],
                    start: clamp_nanos(line.start@ + sat_total(alloc.take(j))),
                }),
                words_view(words@) == words_view(before) + expected.take(k as int),
            decreases line_words_vec.len() - k,
        {
            let start = line.start.saturating_add(elapsed);
            let text = string_of(line_words_vec[k].text.as_slice());
            assert(line_words_vec@.map_values(|w: LyricWord| w.text@)[k as int] == line_words_vec[k as int].text@);
            let ghost prev = words@;
            words.push(Word { text, start });
            assert(words_view(words@) =~= words_view(prev).push(expected[k as int]));
            assert(expected.take(k + 1) =~= expected.take(k as int).push(expected[k as int]));
            proof {
                assert(alloc.take(k + 1).drop_last() =~= alloc.take(k as int));
            }
            elapsed = elapsed.saturating_add(allocations[k]);
            k = k + 1;
        }
        assert(expected.take(k as int) =~= expected);
        index = index + 1;
    }
    let sorted = sort_by_start_vec(words);
    proof {
        lemma_sort_map(words@, |w: Word| word_view(w));
    }
    assert(lv.len() == lines.len());
    sorted
}

/// The time from the start of line `i` to the start of the next line.
fn next_gap(lines: &Vec<TimedLine>, i: usize) -> (r: Option<Duration>)
    requires
        i < lines.len(),
    ensures
        opt_nanos(r) == gap_to_next(lines_view(lines@), i as int),
{
    if i + 1 < lines.len() {
        lines[i + 1].start.checked_sub(lines[i].start)
    } else {
        None
    }
}

/// Whether `o` is the lyrics of `words` with timing from `source`: `None`
/// where there are no words.
pub open spec fn lyrics_of(o: Option<Lyrics>, words: Seq<WordView>, source: LyricsSource) -> bool {
    match o {
        None => words.len() == 0,
        Some(l) => words.len() > 0 && l.source == source && words_view(l.words@) == words,
    }
}

/// Lyrics of the timed words `words`, or `None` where there are none.
pub fn lyrics_from_words(words: Vec<Word>, source: LyricsSource) -> (r: Option<Lyrics>)
    ensures
        lyrics_of(r, words_view(words@), source),
{
    if words.len() == 0 {
        None
    } else {
        Some(Lyrics { words, source })
    }
}

impl LyricsSource {
    /// The name of the source, as debug output shows it.
    pub fn as_str(self) -> (name: &'static str)
        ensures
            name@ == source_name(self),
    {
        match self {
            LyricsSource::LyricsFileWord => "lyricsfile-word",
            LyricsSource::LyricsFileLine => "lyricsfile-line",
            LyricsSource::SyncedLrc => "synced-lrc",
            LyricsSource::PlainApprox => "plain-approx",
        }
    }
}

/// The name of a source of timing.
pub open spec fn source_name(s: LyricsSource) -> Seq<char> {
    match s {
        LyricsSource::LyricsFileWord => "lyricsfile-word"@,
        LyricsSource::LyricsFileLine => "lyricsfile-line"@,
        LyricsSource::SyncedLrc => "synced-lrc"@,
        LyricsSource::PlainApprox => "plain-approx"@,
    }
}

/// Whether word `k` of `ws` is where the words that start by `pos` end: it
/// starts by `pos` and the next word, if any, after it.
pub open spec fn is_boundary(ws: Seq<WordView>, pos: nat, k: int) -> bool {
    &&& 0 <= k < ws.len()
    &&& ws[k].start <= pos
    &&& (k + 1 == ws.len() || ws[k + 1].start > pos)
}

/// The last word of `ws` that starts by `pos`.
pub open spec fn latest_word(ws: Seq<WordView>, pos: nat) -> Option<WordView> {
    if exists|k: int| 0 <= k < ws.len() && ws[k].start <= pos {
        let k = choose|k: int| is_boundary(ws, pos, k);
        Some(ws[k])
    } else {
        None
    }
}

/// In words in order of start, the boundary at `pos` is the last word that
/// starts by then.
pub proof fn lemma_boundary_is_latest(ws: Seq<WordView>, pos: nat, k: int)
    requires
        crate::order::sorted_by_start(ws),
        is_boundary(ws, pos, k),
    ensures
        latest_word(ws, pos) == Some(ws[k]),
        forall|j: int| k < j < ws.len() ==> ws[j].start > pos,
{
    assert forall|j: int| k < j < ws.len() implies ws[j].start > pos by {
        assert(ws[k + 1].key() <= ws[j].key());
    }
    let k2 = choose|k2: int| is_boundary(ws, pos, k2);
    assert(is_boundary(ws, pos, k2));
    if k2 < k {
        assert(ws[k2 + 1].key() <= ws[k].key());
    } else if k2 > k {
        assert(ws[k + 1].key() <= ws[k2].key());
    }
}

impl Lyrics {
    /// The word being sung at `position` and its start: by binary search, a
    /// word that starts by `position` and is followed by none or by one that
    /// starts after it. In words in order of start that is the last word that
    /// starts by `position`.
    pub fn word_at_with_timing(&self, position: Duration) -> (r: Option<(&str, Duration)>)
        ensures
            match r {
                None => self.words.len() == 0 || self.words[0].start@ > position@,
                Some((text, start)) => exists|k: int|
                    is_boundary(words_view(self.words@), position@, k) && #[trigger] self.words[k].text@
                        == text@ && self.words[k].start == start,
            },
            crate::order::sorted_by_start(words_view(self.words@)) ==> match r {
                None => latest_word(words_view(self.words@), position@) is None,
                Some((text, start)) => latest_word(words_view(self.words@), position@) == Some(
                    WordView { text: text@, start: start@ },
                ),
            },
    {
        let ghost ws = words_view(self.words@);
        if self.words.len() == 0 {
            return None;
        }
        // The first index whose word starts after `position`.
        let mut lo: usize = 0;
        let mut hi: usize = self.words.len();
        while lo < hi
            invariant
                0 <= lo <= hi <= self.words.len(),
                ws == words_view(self.words@),
                lo > 0 ==> self.words[lo - 1].start@ <= position@,
                hi < self.words.len() ==> self.words[hi as int].start@ > position@,
            decreases hi - lo,
        {
            let mid = lo + (hi - lo) / 2;
            if self.words[mid].start.le(&position) {
                lo = mid + 1;
            } else {
                hi = mid;
            }
        }
        if lo == 0 {
            proof {
                if crate::order::sorted_by_start(ws) {
                    assert forall|k: int| 0 <= k < ws.len() implies !(ws[k].start <= position@) by {
                        assert(ws[0].key() <= ws[k].key());
                    }
                }
            }
            None
        } else {
            let word = &self.words[lo - 1];
            proof {
                assert(is_boundary(ws, position@, lo - 1));
                if crate::order::sorted_by_start(ws) {
                    lemma_boundary_is_latest(ws, position@, lo - 1);
                }
            }
            Some((word.text.as_str(), word.start))
        }
    }
}

} // verus!
