use vstd::prelude::*;

use crate::duration::Duration;
use crate::lrc::{
    TimestampOverflow, enhanced_fits, enhanced_words, lrc_fits, line_lrc_words,
    try_parse_enhanced_lrc, try_parse_line_lrc,
};
use crate::lyrics::{Lyrics, LyricsSource, Track, lyrics_of};
use crate::lyricsfile::{LyricsFile, falls_to_plain, file_lyrics, lyrics_from_file, lines_of_file, file_words, file_lines};
use crate::lyrics::estimate_words;
use crate::order::sort_by_start;
use crate::plain::{plain_words, pace_fits, parse_plain_lyrics};
use crate::text::{trim, chars_of, trim_bounds};
use crate::timing::opt_nanos;

verus! {

/// The query parameters of a lyrics lookup.
pub struct LookupQuery {
    pub track_name: String,
    pub artist_name: String,
    pub album_name: Option<String>,
}

/// The lookup to make for `track`: its title and artist, and its album where
/// that is not blank (the track's length is added where the track has one);
/// `None` where the title or the artist is blank, for there is nothing to look up.
pub fn lookup_query(track: &Track) -> (q: Option<LookupQuery>)
    ensures
        match q {
            None => trim(track.title@).len() == 0 || trim(track.artist@).len() == 0,
            Some(q) => {
                &&& trim(track.title@).len() > 0 && trim(track.artist@).len() > 0
                &&& q.track_name@ == track.title@
                &&& q.artist_name@ == track.artist@
                &&& match track.album {
                    Some(a) => if trim(a@).len() > 0 {
                        q.album_name matches Some(x) && x@ == a@
                    } else {
                        q.album_name is None
                    },
                    None => q.album_name is None,
                }
            },
        },
{
    if is_blank(track.title.as_str()) || is_blank(track.artist.as_str()) {
        return None;
    }
    let album_name = match &track.album {
        Some(a) => {
            if is_blank(a.as_str()) {
                None
            } else {
                Some(a.clone())
            }
        },
        None => None,
    };
    Some(
        LookupQuery {
            track_name: track.title.clone(),
            artist_name: track.artist.clone(),
            album_name,
        },
    )
}

/// Whether `s` is empty once trimmed.
pub fn is_blank(s: &str) -> (b: bool)
    ensures
        b == (trim(s@).len() == 0),
{
    let chars = chars_of(s);
    let (a, b) = trim_bounds(&chars, 0, chars.len());
    assert(chars@.subrange(0, chars.len() as int) =~= s@);
    a == b
}

/// Whether the lyrics that a lookup answered give words: the lyricsfile
/// first, then the synchronised lyrics, then the plain ones.
pub open spec fn file_gives(f: LyricsFile, duration: Option<nat>) -> bool {
    let ls = lines_of_file(f);
    ||| file_words(ls).len() > 0
    ||| estimate_words(sort_by_start(file_lines(ls))).len() > 0
    ||| (f.plain matches Some(p) && plain_words(p@, duration).len() > 0)
}

/// The lyrics chosen from what a lookup answered: the lyricsfile (already
/// read) where it gives words; else the synchronised lyrics as enhanced LRC,
/// then as line LRC; else the plain lyrics, on a track of known length; else
/// none. `Err` where a timestamp of the synchronised lyrics that is read is
/// longer than the longest `Duration`.
pub open spec fn chosen_lyrics(
    lyrics_file: Option<LyricsFile>,
    synced: Option<Seq<char>>,
    plain: Option<Seq<char>>,
    duration: Option<nat>,
    r: Result<Option<Lyrics>, TimestampOverflow>,
) -> bool {
    let f = lyrics_file->0;
    let s = synced->0;
    let p = plain->0;
    if lyrics_file is Some && file_gives(f, duration) {
        r matches Ok(o) && file_lyrics(f, duration, o)
    } else if synced is Some && !enhanced_fits(s) {
        r is Err
    } else if synced is Some && enhanced_words(s).len() > 0 {
        r matches Ok(o) && lyrics_of(o, enhanced_words(s), LyricsSource::SyncedLrc)
    } else if synced is Some && !lrc_fits(s) {
        r is Err
    } else if synced is Some && line_lrc_words(s).len() > 0 {
        r matches Ok(o) && lyrics_of(o, line_lrc_words(s), LyricsSource::SyncedLrc)
    } else if plain is Some && duration is Some && plain_words(p, duration).len() > 0 {
        r matches Ok(o) && lyrics_of(o, plain_words(p, duration), LyricsSource::PlainApprox)
    } else {
        r matches Ok(o) && o is None
    }
}

/// Chooses the lyrics from what a lookup answered, as `chosen_lyrics` says.
pub fn choose_lyrics(
    lyrics_file: Option<&LyricsFile>,
    synced: Option<&str>,
    plain: Option<&str>,
    duration: Option<Duration>,
) -> (r: Result<Option<Lyrics>, TimestampOverflow>)
    requires
        lyrics_file matches Some(f) ==> (falls_to_plain(*f) && duration is None ==> (
        f.plain matches Some(p) ==> pace_fits(p@))),
    ensures
        chosen_lyrics(
            match lyrics_file {
                Some(f) => Some(*f),
                None => None,
            },
            match synced {
                Some(s) => Some(s@),
                None => None,
            },
            match plain {
                Some(p) => Some(p@),
                None => None,
            },
            opt_nanos(duration),
            r,
        ),
{
    if let Some(f) = lyrics_file {
        let from_file = lyrics_from_file(f, duration);
        if from_file.is_some() {
            return Ok(from_file);
        }
    }
    if let Some(s) = synced {
        match try_parse_enhanced_lrc(s) {
            Err(e) => {
                return Err(e);
            },
            Ok(Some(l)) => {
                return Ok(Some(l));
            },
            Ok(None) => {},
        }
        match try_parse_line_lrc(s) {
            Err(e) => {
                return Err(e);
            },
            Ok(Some(l)) => {
                return Ok(Some(l));
            },
            Ok(None) => {},
        }
    }
    if let Some(p) = plain {
        let from_plain = parse_plain_lyrics(p, duration);
        if from_plain.is_some() {
            return Ok(from_plain);
        }
    }
    Ok(None)
}

/// Whether pacing the lines of `text` five seconds apart stays within `u64`
/// milliseconds, as `pace_fits` says.
pub fn plain_pace_fits(text: &str) -> (b: bool)
    ensures
        b == pace_fits(text@),
{
    let n = crate::plain::count_nonblank(text);
    (n as u128) * 5000 <= u64::MAX as u128 + 5000
}

} // verus!
