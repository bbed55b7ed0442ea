use spotly::duration::Duration;
use spotly::lrc::{parse_enhanced_lrc, parse_line_lrc_adaptive};
use spotly::plain::parse_plain_lyrics;
use spotly::timing::{allocate_word_timing, split_words};

fn chars(s: &str) -> Vec<char> {
    s.chars().collect()
}

fn sum(spans: &[Duration]) -> Duration {
    spans.iter().fold(Duration::zero(), |acc, d| acc.saturating_add(*d))
}

#[test]
fn uneven_shares_add_up_to_the_usable_time() {
    let s = chars("a hello, supercalifragilistic!");
    let words = split_words(&s, 0, s.len());
    let spans = allocate_word_timing(&words, Some(Duration::from_millis(1_234)));
    assert_eq!(spans.len(), 3);
    assert_eq!(sum(&spans), Duration::from_millis(1_194));

    let short = allocate_word_timing(&words, Some(Duration::from_millis(333)));
    assert_eq!(sum(&short), Duration::from_millis(333));
}

#[test]
fn enhanced_group_words_start_within_80_ms_of_their_mark() {
    let lyrics = parse_enhanced_lrc("[00:01.00]<00:01.000>one two three <00:02.000>four").unwrap();
    assert_eq!(lyrics.words.len(), 4);
    assert_eq!(lyrics.words[0].start, Duration::from_secs(1));
    for w in &lyrics.words[..3] {
        assert!(w.start >= Duration::from_secs(1));
        assert!(w.start < Duration::from_millis(1_080));
        assert!(!w.text.is_empty());
        assert!(!w.text.chars().any(char::is_whitespace));
    }
    // A mark with one word starts exactly at the mark.
    assert_eq!(lyrics.words[3].start, Duration::from_secs(2));
    assert_eq!(lyrics.words[3].text, "four");
}

#[test]
fn line_lrc_gives_every_token_and_each_line_its_first_word() {
    let lyrics = parse_line_lrc_adaptive("[00:02]c d e\n[00:01]a b\n[00:01]a b").unwrap();
    // The repeated line is dropped: 2 + 3 tokens.
    assert_eq!(lyrics.words.len(), 5);
    assert!(lyrics
        .words
        .iter()
        .any(|w| w.text == "a" && w.start == Duration::from_secs(1)));
    assert!(lyrics
        .words
        .iter()
        .any(|w| w.text == "c" && w.start == Duration::from_secs(2)));
}

#[test]
fn line_lrc_words_stay_before_the_next_line() {
    let lyrics = parse_line_lrc_adaptive("[00:01]one two three\n[00:02]last line here").unwrap();
    let first: Vec<_> = lyrics.words[..3].iter().map(|w| w.start).collect();
    assert_eq!(first[0], Duration::from_secs(1));
    assert!(first[0] < first[1] && first[1] < first[2]);
    assert!(first[2] < Duration::from_secs(2));
    // The last line's words step 120 to 700 ms apart.
    let last: Vec<_> = lyrics.words[3..].iter().map(|w| w.start).collect();
    assert_eq!(last[0], Duration::from_secs(2));
    for pair in last.windows(2) {
        let step = pair[1].saturating_sub(pair[0]);
        assert!(step >= Duration::from_millis(120) && step <= Duration::from_millis(700));
    }
}

#[test]
fn plain_lines_start_at_their_share_of_the_track() {
    let lyrics =
        parse_plain_lyrics("first line\n\nsecond line here\nthird", Some(Duration::from_secs(9)))
            .unwrap();
    assert_eq!(lyrics.words[0].start, Duration::zero());
    assert_eq!(lyrics.words[2].start, Duration::from_secs(3));
    assert_eq!(lyrics.words[5].start, Duration::from_secs(6));
    for w in &lyrics.words {
        assert!(w.start < Duration::from_secs(9));
    }
    let texts: Vec<&str> = lyrics.words.iter().map(|w| w.text.as_str()).collect();
    assert_eq!(texts, vec!["first", "line", "second", "line", "here", "third"]);
    for pair in lyrics.words.windows(2) {
        assert!(pair[0].start < pair[1].start);
    }
}
