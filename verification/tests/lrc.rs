use spotly::duration::Duration;
use spotly::lrc::{parse_enhanced_lrc, parse_line_lrc_adaptive};
use spotly::lyrics::LyricsSource;

#[test]
fn line_words_share_the_time_to_the_next_line() {
    let lyrics = parse_line_lrc_adaptive(
        "[00:10.000]hello world\n\
             [00:12.000]this is another line",
    )
    .unwrap();

    // Two seconds less 40 ms, shared evenly by two words of equal weight.
    assert_eq!(lyrics.words[0].start, Duration::from_secs(10));
    assert_eq!(lyrics.words[1].start, Duration::from_millis(10_980));
    assert_eq!(lyrics.words[2].start, Duration::from_secs(12));
    assert_eq!(lyrics.source, LyricsSource::SyncedLrc);
}

#[test]
fn last_line_words_get_fixed_spans() {
    let lyrics = parse_line_lrc_adaptive("[00:01.00]a hello,").unwrap();

    // "a" weighs 0.65: 143 ms.
    assert_eq!(lyrics.words[0].start, Duration::from_secs(1));
    assert_eq!(lyrics.words[1].start, Duration::from_millis(1_143));
}

#[test]
fn repeated_lrc_lines_are_dropped() {
    let lyrics = parse_line_lrc_adaptive("[00:10]la\n[00:10]la\n[00:10]lo").unwrap();

    assert_eq!(lyrics.words.len(), 2);
    assert_eq!(lyrics.words[0].text, "la");
    assert_eq!(lyrics.words[1].text, "lo");
}

#[test]
fn lrc_lines_without_timestamp_or_text_are_skipped() {
    assert!(parse_line_lrc_adaptive("no timestamp\n[00:01]\n   \n").is_none());
    assert!(parse_line_lrc_adaptive("").is_none());
}

#[test]
fn lrc_lines_are_sorted_by_start() {
    let lyrics = parse_line_lrc_adaptive("[00:20]late\r\n[00:05]early").unwrap();

    assert_eq!(lyrics.words[0].text, "early");
    assert_eq!(lyrics.words[1].text, "late");
    assert_eq!(lyrics.words[1].start, Duration::from_secs(20));
}

#[test]
fn a_bad_timestamp_ends_the_leading_timestamps() {
    let lyrics = parse_line_lrc_adaptive("[00:01][xx][00:02]text").unwrap();

    assert_eq!(lyrics.words.len(), 1);
    assert_eq!(lyrics.words[0].text, "[xx][00:02]text");
    assert_eq!(lyrics.words[0].start, Duration::from_secs(1));
}

#[test]
fn enhanced_group_words_share_eighty_milliseconds() {
    let lyrics = parse_enhanced_lrc("<00:01.00>hello world").unwrap();

    assert_eq!(lyrics.words.len(), 2);
    assert_eq!(lyrics.words[0].start, Duration::from_secs(1));
    assert_eq!(lyrics.words[1].start, Duration::from_millis(1_040));
}

#[test]
fn enhanced_marks_that_are_no_timestamp_are_skipped() {
    let lyrics = parse_enhanced_lrc("<a>x <00:02>y").unwrap();

    assert_eq!(lyrics.words.len(), 1);
    assert_eq!(lyrics.words[0].text, "y");
    assert_eq!(lyrics.words[0].start, Duration::from_secs(2));
}

#[test]
fn enhanced_without_marks_gives_nothing() {
    assert!(parse_enhanced_lrc("[00:01.00]plain line lrc").is_none());
    assert!(parse_enhanced_lrc("<00:01.00>   <00:02>").is_none());
}
