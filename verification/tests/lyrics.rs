use spotly::duration::Duration;
use spotly::lrc::{parse_enhanced_lrc, parse_line_lrc_adaptive};
use spotly::lyrics::{Lyrics, LyricsSource, Word};
use spotly::plain::parse_plain_lyrics;
use spotly::timestamp::parse_timestamp;

#[test]
fn parses_timestamp() {
    let value = parse_timestamp("01:23.456").unwrap();

    assert_eq!(value, Duration::from_millis(83_456));
}

#[test]
fn parses_seconds_timestamp() {
    let value = parse_timestamp("12.500").unwrap();

    assert_eq!(value, Duration::from_millis(12_500));
}

#[test]
fn parses_enhanced_lrc() {
    let lyrics = parse_enhanced_lrc(
        "[00:01.000]<00:01.000>Hello \
             <00:01.500>world",
    )
    .unwrap();

    assert_eq!(lyrics.words.len(), 2);

    assert_eq!(lyrics.words[0].text, "Hello");

    assert_eq!(lyrics.words[1].text, "world");

    assert_eq!(lyrics.source, LyricsSource::SyncedLrc);
}

#[test]
fn parses_line_lrc() {
    let lyrics = parse_line_lrc_adaptive(
        "[00:10.000]hello world\n\
             [00:12.000]this is another line",
    )
    .unwrap();

    assert_eq!(lyrics.words.len(), 6);

    assert_eq!(lyrics.words[0].text, "hello");

    assert_eq!(lyrics.words[2].text, "this");
}

#[test]
fn parses_multiple_lrc_timestamps() {
    let lyrics = parse_line_lrc_adaptive("[00:10.000][00:20.000]same text").unwrap();

    assert_eq!(lyrics.words.len(), 4);

    assert_eq!(lyrics.words[0].text, "same");

    assert_eq!(lyrics.words[2].text, "same");

    assert_eq!(lyrics.words[0].start, Duration::from_secs(10));

    assert_eq!(lyrics.words[2].start, Duration::from_secs(20));
}

#[test]
fn parses_plain_lyrics() {
    let lyrics = parse_plain_lyrics(
        "hello world\n\
             this is a test",
        Some(Duration::from_secs(20)),
    )
    .unwrap();

    assert_eq!(lyrics.words.len(), 6);

    assert_eq!(lyrics.source, LyricsSource::PlainApprox);

    assert!(lyrics.words[0].start < lyrics.words[3].start);
}

#[test]
fn slow_line_gets_more_time() {
    let lyrics = parse_line_lrc_adaptive(
        "[00:10.000]I really don't know\n\
             [00:20.000]next line",
    )
    .unwrap();

    assert_eq!(lyrics.words.len(), 6);

    assert!(lyrics.words[3].start > Duration::from_secs(15));

    assert!(lyrics.words[4].start > lyrics.words[3].start);
}

#[test]
fn word_lookup_works() {
    let lyrics = Lyrics {
        words: vec![
            Word {
                text: "one".into(),
                start: Duration::from_secs(1),
            },
            Word {
                text: "two".into(),
                start: Duration::from_secs(2),
            },
            Word {
                text: "three".into(),
                start: Duration::from_secs(3),
            },
        ],
        source: LyricsSource::SyncedLrc,
    };

    assert_eq!(lyrics.word_at_with_timing(Duration::from_millis(500)), None);

    assert_eq!(
        lyrics
            .word_at_with_timing(Duration::from_millis(1500))
            .map(|(word, _)| word),
        Some("one")
    );

    assert_eq!(
        lyrics
            .word_at_with_timing(Duration::from_millis(2500))
            .map(|(word, _)| word),
        Some("two")
    );
}
