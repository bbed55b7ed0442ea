use spotly::duration::Duration;
use spotly::lookup::{choose_lyrics, is_blank, lookup_query, plain_pace_fits};
use spotly::lyrics::{LyricsSource, Track};
use spotly::lyricsfile::{
    falls_to_plain_file, lyrics_from_file, LyricsFile, LyricsFileLine, LyricsFileWord,
};
use spotly::plain::{parse_plain_lyrics, parse_plain_lyrics_internal};

fn word(text: &str, start_ms: u64) -> LyricsFileWord {
    LyricsFileWord {
        text: Some(text.to_string()),
        start_ms: Some(start_ms),
        end_ms: None,
    }
}

fn line(text: &str, start_ms: u64, end_ms: u64, words: Option<Vec<LyricsFileWord>>) -> LyricsFileLine {
    LyricsFileLine {
        text: Some(text.to_string()),
        start_ms: Some(start_ms),
        end_ms: Some(end_ms),
        words,
    }
}

fn file(lines: Vec<LyricsFileLine>, plain: Option<&str>) -> LyricsFile {
    LyricsFile {
        version: Some("1.0".to_string()),
        metadata: None,
        lines: Some(lines),
        plain: plain.map(|p| p.to_string()),
    }
}

#[test]
fn lyricsfile_word_timing_is_kept() {
    let f = file(
        vec![line(
            "hello world",
            10_000,
            12_000,
            Some(vec![word("hello", 10_000), word("world", 11_000)]),
        )],
        None,
    );
    let lyrics = lyrics_from_file(&f, Some(Duration::from_secs(20))).unwrap();

    assert_eq!(lyrics.words.len(), 2);
    assert_eq!(lyrics.words[0].text, "hello");
    assert_eq!(lyrics.words[1].text, "world");
    assert_eq!(lyrics.words[0].start, Duration::from_secs(10));
    assert_eq!(lyrics.words[1].start, Duration::from_millis(11_000));
    assert_eq!(lyrics.source, LyricsSource::LyricsFileWord);
}

#[test]
fn lyricsfile_line_timing_is_shared_by_words() {
    let f = file(
        vec![
            line("hello world", 10_000, 12_000, None),
            line("next line", 12_000, 15_000, None),
        ],
        None,
    );
    let lyrics = lyrics_from_file(&f, Some(Duration::from_secs(20))).unwrap();

    assert_eq!(lyrics.words.len(), 4);
    assert_eq!(lyrics.words[0].text, "hello");
    assert_eq!(lyrics.words[2].text, "next");
    assert_eq!(lyrics.words[1].start, Duration::from_millis(10_980));
    assert_eq!(lyrics.source, LyricsSource::LyricsFileLine);
}

#[test]
fn lyricsfile_blank_words_fall_back_to_the_line() {
    let f = file(
        vec![line("sung line", 1_000, 2_000, Some(vec![word("   ", 1_000)]))],
        None,
    );
    let lyrics = lyrics_from_file(&f, None).unwrap();

    assert_eq!(lyrics.source, LyricsSource::LyricsFileLine);
    assert_eq!(lyrics.words[0].text, "sung");
}

#[test]
fn lyricsfile_plain_text_is_spread() {
    let f = file(vec![], Some("hello world\nthis is a test"));
    let lyrics = lyrics_from_file(&f, Some(Duration::from_secs(20))).unwrap();

    assert_eq!(lyrics.words.len(), 6);
    assert_eq!(lyrics.source, LyricsSource::PlainApprox);
    assert_eq!(lyrics.words[0].start, Duration::zero());
    assert_eq!(lyrics.words[2].start, Duration::from_secs(10));
    assert!(lyrics.words.last().unwrap().start < Duration::from_secs(20));
}

#[test]
fn lyricsfile_with_nothing_gives_nothing() {
    let f = LyricsFile {
        version: None,
        metadata: None,
        lines: None,
        plain: None,
    };
    assert!(lyrics_from_file(&f, None).is_none());
}

#[test]
fn plain_lines_without_length_are_five_seconds_apart() {
    let lyrics = parse_plain_lyrics_internal("one\n\n  two  \n", None).unwrap();

    assert_eq!(lyrics.words.len(), 2);
    assert_eq!(lyrics.words[1].text, "two");
    assert_eq!(lyrics.words[1].start, Duration::from_secs(5));
}

#[test]
fn plain_lyrics_need_a_track_length() {
    assert!(parse_plain_lyrics("one", None).is_none());
    assert!(parse_plain_lyrics("one", Some(Duration::zero())).is_none());
    assert!(parse_plain_lyrics("  \n ", Some(Duration::from_secs(3))).is_none());
    assert!(plain_pace_fits("one\ntwo"));
}

fn track(title: &str, artist: &str, album: Option<&str>) -> Track {
    Track {
        title: title.to_string(),
        artist: artist.to_string(),
        album: album.map(|a| a.to_string()),
        duration: None,
    }
}

#[test]
fn lookup_needs_title_and_artist() {
    assert!(lookup_query(&track(" ", "artist", None)).is_none());
    assert!(lookup_query(&track("title", "", None)).is_none());

    let q = lookup_query(&track(" title", "artist", Some("  "))).unwrap();
    assert_eq!(q.track_name, " title");
    assert_eq!(q.artist_name, "artist");
    assert_eq!(q.album_name, None);

    let q = lookup_query(&track("t", "a", Some("album"))).unwrap();
    assert_eq!(q.album_name, Some("album".to_string()));
    assert!(is_blank(" \t\n"));
    assert!(!is_blank(" x "));
}

#[test]
fn lyricsfile_comes_first() {
    let f = file(vec![line("from file", 1_000, 2_000, None)], None);
    let lyrics = choose_lyrics(Some(&f), Some("[00:01]from lrc"), Some("plain"), None)
        .unwrap()
        .unwrap();
    assert_eq!(lyrics.source, LyricsSource::LyricsFileLine);
}

#[test]
fn enhanced_lrc_comes_before_line_lrc() {
    let lyrics = choose_lyrics(None, Some("[00:01]<00:01>hey"), None, None)
        .unwrap()
        .unwrap();
    assert_eq!(lyrics.words.len(), 1);
    assert_eq!(lyrics.words[0].text, "hey");

    let lyrics = choose_lyrics(None, Some("[00:01]hey you"), None, None)
        .unwrap()
        .unwrap();
    assert_eq!(lyrics.words.len(), 2);
    assert_eq!(lyrics.source, LyricsSource::SyncedLrc);
}

#[test]
fn plain_lyrics_come_last() {
    let empty = file(vec![], None);
    let lyrics = choose_lyrics(
        Some(&empty),
        Some("no timestamps"),
        Some("sing along"),
        Some(Duration::from_secs(10)),
    )
    .unwrap()
    .unwrap();
    assert_eq!(lyrics.source, LyricsSource::PlainApprox);

    assert!(choose_lyrics(None, None, Some("sing along"), None)
        .unwrap()
        .is_none());
    assert!(choose_lyrics(None, None, None, None).unwrap().is_none());
}

#[test]
fn only_files_without_timed_words_fall_to_plain() {
    let timed = file(vec![line("hello world", 10_000, 12_000, None)], Some("plain"));
    assert!(!falls_to_plain_file(&timed));
    let worded = file(
        vec![line("x", 1_000, 2_000, Some(vec![word("x", 1_000)]))],
        Some("plain"),
    );
    assert!(!falls_to_plain_file(&worded));
    let blank = file(vec![line("   ", 1_000, 2_000, None)], Some("plain"));
    assert!(falls_to_plain_file(&blank));
    assert!(falls_to_plain_file(&file(vec![], None)));
}
