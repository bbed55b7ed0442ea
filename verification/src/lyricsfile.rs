use vstd::prelude::*;

use crate::duration::{Duration, NANOS_PER_MILLI};
use crate::lyrics::{
    Lyrics, LyricsSource, LineView, TimedLine, Word, WordView, estimate_words,
    estimate_adaptive_timing, lines_view, words_view, lyrics_of, lyrics_from_words,
};
use crate::order::{sort_by_start, sort_by_start_vec};
use crate::plain::{plain_words, pace_fits, parse_plain_lyrics_internal};
use crate::text::{trim, chars_of, trim_bounds, copy_range, string_of};
use crate::timing::opt_nanos;

verus! {

/// A word of a lyricsfile line.
pub struct LyricsFileWord {
    pub text: Option<String>,
    pub start_ms: Option<u64>,
    pub end_ms: Option<u64>,
}

/// A line of a lyricsfile, with or without the timing of its words.
pub struct LyricsFileLine {
    pub text: Option<String>,
    pub start_ms: Option<u64>,
    pub end_ms: Option<u64>,
    pub words: Option<Vec<LyricsFileWord>>,
}

/// What a lyricsfile says of its track.
pub struct LyricsFileMetadata {
    pub title: Option<String>,
    pub artist: Option<String>,
    pub album: Option<String>,
    pub duration_ms: Option<u64>,
    pub instrumental: Option<bool>,
}

/// A lyricsfile: timed lines, and the lyrics as plain text.
pub struct LyricsFile {
    pub version: Option<String>,
    pub metadata: Option<LyricsFileMetadata>,
    pub lines: Option<Vec<LyricsFileLine>>,
    pub plain: Option<String>,
}

/// The timed word that a lyricsfile word gives: its text, trimmed, at its
/// start; none where it has no text, blank text or no start.
pub open spec fn file_word_entry(w: LyricsFileWord) -> Seq<WordView> {
    match (w.text, w.start_ms) {
        (Some(t), Some(ms)) => if trim(t@).len() > 0 {
            seq![WordView { text: trim(t@), start: (ms * NANOS_PER_MILLI) as nat }]
        } else {
            seq![]
        },
        _ => seq![],
    }
}

/// The timed words of the lyricsfile words `ws`.
pub open spec fn file_word_entries(ws: Seq<LyricsFileWord>) -> Seq<WordView>
    decreases ws.len(),
{
    if ws.len() == 0 {
        seq![]
    } else {
        file_word_entries(ws.drop_last()) + file_word_entry(ws.last())
    }
}

/// The timed words of the words of a lyricsfile line.
pub open spec fn line_word_entries(l: LyricsFileLine) -> Seq<WordView> {
    match l.words {
        Some(ws) => file_word_entries(ws@),
        None => seq![],
    }
}

/// The timed line that a lyricsfile line without timed words gives: its text,
/// trimmed, from its start to its end; none where it has no text, blank text
/// or no start.
pub open spec fn file_line_entry(l: LyricsFileLine) -> Seq<LineView> {
    if line_word_entries(l).len() > 0 {
        seq![]
    } else {
        match (l.text, l.start_ms) {
            (Some(t), Some(ms)) => if trim(t@).len() > 0 {
                seq![
                    LineView {
                        start: (ms * NANOS_PER_MILLI) as nat,
                        end: match l.end_ms {
                            Some(e) => Some((e * NANOS_PER_MILLI) as nat),
                            None => None,
                        },
                        text: trim(t@),
                    },
                ]
            } else {
                seq![]
            },
            _ => seq![],
        }
    }
}

/// The timed words of the lines `ls`, line after line.
pub open spec fn file_words(ls: Seq<LyricsFileLine>) -> Seq<WordView>
    decreases ls.len(),
{
    if ls.len() == 0 {
        seq![]
    } else {
        file_words(ls.drop_last()) + line_word_entries(ls.last())
    }
}

/// The timed lines of the lines `ls` that have no timed words.
pub open spec fn file_lines(ls: Seq<LyricsFileLine>) -> Seq<LineView>
    decreases ls.len(),
{
    if ls.len() == 0 {
        seq![]
    } else {
        file_lines(ls.drop_last()) + file_line_entry(ls.last())
    }
}

/// The lines of a lyricsfile; none where it has no list of lines.
pub open spec fn lines_of_file(f: LyricsFile) -> Seq<LyricsFileLine> {
    match f.lines {
        Some(v) => v@,
        None => seq![],
    }
}

/// Whether reading a lyricsfile falls back to its plain text: it has no timed
/// words and its timed lines give no words.
pub open spec fn falls_to_plain(f: LyricsFile) -> bool {
    &&& file_words(lines_of_file(f)).len() == 0
    &&& estimate_words(sort_by_start(file_lines(lines_of_file(f)))).len() == 0
}

/// What reading a lyricsfile gives: the timed words, in order of start, where
/// there are any; else the words of the timed lines; else its plain text on a
/// track of length `duration`; else nothing.
pub open spec fn file_lyrics(f: LyricsFile, duration: Option<nat>, r: Option<Lyrics>) -> bool {
    let ls = lines_of_file(f);
    if file_words(ls).len() > 0 {
        lyrics_of(r, sort_by_start(file_words(ls)), LyricsSource::LyricsFileWord)
    } else if estimate_words(sort_by_start(file_lines(ls))).len() > 0 {
        lyrics_of(r, estimate_words(sort_by_start(file_lines(ls))), LyricsSource::LyricsFileLine)
    } else {
        match f.plain {
            Some(p) => lyrics_of(r, plain_words(p@, duration), LyricsSource::PlainApprox),
            None => r is None,
        }
    }
}

/// The trimmed text of an optional string, where it is not blank.
fn trimmed_text(t: &Option<String>) -> (r: Option<Vec<char>>)
    ensures
        match t {
            Some(s) => match r {
                Some(v) => v@ == trim(s@) && trim(s@).len() > 0,
                None => trim(s@).len() == 0,
            },
            None => r is None,
        },
{
    match t {
        Some(s) => {
            let chars = chars_of(s.as_str());
            let (a, b) = trim_bounds(&chars, 0, chars.len());
            assert(chars@.subrange(0, chars.len() as int) =~= s@);
            if a < b {
                Some(copy_range(&chars, a, b))
            } else {
                None
            }
        },
        None => None,
    }
}

/// The timed words of the words of a lyricsfile line, added to `out`.
fn push_line_words(l: &LyricsFileLine, out: &mut Vec<Word>) -> (found: bool)
    ensures
        words_view(final(out)@) == words_view(old(out)@) + line_word_entries(*l),
        found == (line_word_entries(*l).len() > 0),
{
    let ghost before = words_view(out@);
    match &l.words {
        None => {
            assert(words_view(out@) =~= before + Seq::<WordView>::empty());
            false
        },
        Some(ws) => {
            let mut found = false;
            let mut i: usize = 0;
            assert(ws@.take(0) =~= Seq::<LyricsFileWord>::empty());
            assert(words_view(out@) =~= before + file_word_entries(ws@.take(0)));
            while i < ws.len()
                invariant
                    i <= ws.len(),
                    before == words_view(old(out)@),
                    words_view(out@) == before + file_word_entries(ws@.take(i as int)),
                    found == (file_word_entries(ws@.take(i as int)).len() > 0),
                decreases ws.len() - i,
            {
                let w = &ws[i];
                assert(ws@.take(i + 1).drop_last() =~= ws@.take(i as int));
                let ghost prev = words_view(out@);
                if let Some(ms) = w.start_ms {
                    if let Some(text) = trimmed_text(&w.text) {
                        let start = Duration::from_millis(ms);
                        out.push(Word { text: string_of(text.as_slice()), start });
                        assert(words_view(out@) =~= prev + file_word_entry(*w));
                        found = true;
                    } else {
                        assert(words_view(out@) =~= prev + file_word_entry(*w));
                    }
                } else {
                    assert(words_view(out@) =~= prev + file_word_entry(*w));
                }
                assert(words_view(out@) =~= before + file_word_entries(ws@.take(i + 1)));
                i = i + 1;
            }
            assert(ws@.take(i as int) =~= ws@);
            found
        },
    }
}

/// The timed words and the timed lines of a lyricsfile, line after line.
fn timed_entries(file: &LyricsFile) -> (r: (Vec<Word>, Vec<TimedLine>))
    ensures
        words_view(r.0@) == file_words(lines_of_file(*file)),
        lines_view(r.1@) == file_lines(lines_of_file(*file)),
{
    let ghost ls = lines_of_file(*file);
    let mut word_timed: Vec<Word> = Vec::new();
    let mut line_timed: Vec<TimedLine> = Vec::new();
    match &file.lines {
        Some(lines) => {
            let mut i: usize = 0;
            assert(lines@.take(0) =~= Seq::<LyricsFileLine>::empty());
            while i < lines.len()
                invariant
                    i <= lines.len(),
                    ls == lines@,
                    words_view(word_timed@) == file_words(lines@.take(i as int)),
                    lines_view(line_timed@) == file_lines(lines@.take(i as int)),
                decreases lines.len() - i,
            {
                let line = &lines[i];
                assert(lines@.take(i + 1).drop_last() =~= lines@.take(i as int));
                let found = push_line_words(line, &mut word_timed);
                let ghost prev = lines_view(line_timed@);
                if !found {
                    if let Some(ms) = line.start_ms {
                        if let Some(text) = trimmed_text(&line.text) {
                            let end = match line.end_ms {
                                Some(e) => Some(Duration::from_millis(e)),
                                None => None,
                            };
                            line_timed.push(TimedLine { start: Duration::from_millis(ms), end, text });
                        }
                    }
                }
                assert(lines_view(line_timed@) =~= prev + file_line_entry(*line));
                i = i + 1;
            }
            assert(lines@.take(i as int) =~= lines@);
        },
        None => {
            assert(words_view(word_timed@) =~= file_words(ls));
            assert(lines_view(line_timed@) =~= file_lines(ls));
        },
    }
    (word_timed, line_timed)
}

/// Whether reading `file` falls back to its plain text, as `falls_to_plain`
/// says.
pub fn falls_to_plain_file(file: &LyricsFile) -> (b: bool)
    ensures
        b == falls_to_plain(*file),
{
    let ghost ls = lines_of_file(*file);
    let (word_timed, line_timed) = timed_entries(file);
    if word_timed.len() > 0 {
        return false;
    }
    if line_timed.len() == 0 {
        proof {
            assert(file_lines(ls) =~= Seq::<LineView>::empty());
            assert(crate::lyrics::timed_words(Seq::<LineView>::empty(), 0) =~= Seq::<WordView>::empty());
        }
        return true;
    }
    let sorted = sort_by_start_vec(line_timed);
    proof {
        crate::order::lemma_sort_map(line_timed@, |l: TimedLine| crate::lyrics::line_view(l));
        assert(lines_view(line_timed@) =~= line_timed@.map_values(
            |l: TimedLine| crate::lyrics::line_view(l),
        ));
    }
    let words = estimate_adaptive_timing(&sorted);
    words.len() == 0
}

/// Lyrics from a lyricsfile: its timed words where it has any, else its timed
/// lines with words timed within them, else its plain text on a track of
/// length `duration`.
pub fn lyrics_from_file(file: &LyricsFile, duration: Option<Duration>) -> (r: Option<Lyrics>)
    requires
        falls_to_plain(*file) && duration is None ==> (file.plain matches Some(p) ==> pace_fits(
            p@,
        )),
    ensures
        file_lyrics(*file, opt_nanos(duration), r),
{
    let ghost ls = lines_of_file(*file);
    let (word_timed, line_timed) = timed_entries(file);
    if word_timed.len() > 0 {
        let sorted = sort_by_start_vec(word_timed);
        proof {
            crate::order::lemma_sort_map(word_timed@, |w: Word| crate::lyrics::word_view(w));
            crate::order::lemma_sort_sorted(word_timed@);
        }
        return lyrics_from_words(sorted, LyricsSource::LyricsFileWord);
    }
    if line_timed.len() > 0 {
        let sorted = sort_by_start_vec(line_timed);
        proof {
            crate::order::lemma_sort_map(line_timed@, |l: TimedLine| crate::lyrics::line_view(l));
            assert(lines_view(line_timed@) =~= line_timed@.map_values(
                |l: TimedLine| crate::lyrics::line_view(l),
            ));
        }
        let words = estimate_adaptive_timing(&sorted);
        if words.len() > 0 {
            return lyrics_from_words(words, LyricsSource::LyricsFileLine);
        }
    } else {
        proof {
            assert(file_lines(ls) =~= Seq::<LineView>::empty());
            assert(crate::lyrics::timed_words(Seq::<LineView>::empty(), 0) =~= Seq::<WordView>::empty());
        }
    }
    match &file.plain {
        Some(p) => {
            match parse_plain_lyrics_internal(p.as_str(), duration) {
                Some(l) => Some(Lyrics { words: l.words, source: LyricsSource::PlainApprox }),
                None => None,
            }
        },
        None => None,
    }
}

} // verus!
