use serde_yaml::Value;

use spotly::duration::Duration;
use spotly::lyrics::LyricsSource;
use spotly::lyricsfile::{lyrics_from_file, LyricsFile, LyricsFileLine, LyricsFileWord};

fn text(v: &Value, key: &str) -> Option<String> {
    v.get(key).and_then(Value::as_str).map(|s| s.to_string())
}

fn number(v: &Value, key: &str) -> Option<u64> {
    v.get(key).and_then(Value::as_u64)
}

/// Reads the parts of a lyricsfile that lyrics are made from.
fn read(yaml: &str) -> LyricsFile {
    let doc: Value = serde_yaml::from_str(yaml).unwrap();
    let lines = doc.get("lines").and_then(Value::as_sequence).map(|lines| {
        lines
            .iter()
            .map(|l| LyricsFileLine {
                text: text(l, "text"),
                start_ms: number(l, "start_ms"),
                end_ms: number(l, "end_ms"),
                words: l.get("words").and_then(Value::as_sequence).map(|words| {
                    words
                        .iter()
                        .map(|w| LyricsFileWord {
                            text: text(w, "text"),
                            start_ms: number(w, "start_ms"),
                            end_ms: number(w, "end_ms"),
                        })
                        .collect()
                }),
            })
            .collect()
    });
    LyricsFile {
        version: text(&doc, "version"),
        metadata: None,
        lines,
        plain: text(&doc, "plain"),
    }
}

#[test]
fn parses_lyricsfile_yaml() {
    let yaml = r#"
version: '1.0'
lines:
  - text: hello world
    start_ms: 10000
    end_ms: 12000
    words:
      - text: hello
        start_ms: 10000
        end_ms: 11000
      - text: world
        start_ms: 11000
        end_ms: 12000
"#;

    let lyrics = lyrics_from_file(&read(yaml), Some(Duration::from_secs(20))).unwrap();

    assert_eq!(lyrics.words.len(), 2);

    assert_eq!(lyrics.words[0].text, "hello");

    assert_eq!(lyrics.words[1].text, "world");

    assert_eq!(lyrics.words[0].start, Duration::from_secs(10));

    assert_eq!(lyrics.words[1].start, Duration::from_millis(11_000));

    assert_eq!(lyrics.source, LyricsSource::LyricsFileWord);
}

#[test]
fn lyricsfile_falls_back_to_line_timing() {
    let yaml = r#"
version: '1.0'
lines:
  - text: hello world
    start_ms: 10000
    end_ms: 12000
  - text: next line
    start_ms: 12000
    end_ms: 15000
"#;

    let lyrics = lyrics_from_file(&read(yaml), Some(Duration::from_secs(20))).unwrap();

    assert_eq!(lyrics.words.len(), 4);

    assert_eq!(lyrics.words[0].text, "hello");

    assert_eq!(lyrics.words[2].text, "next");

    assert_eq!(lyrics.source, LyricsSource::LyricsFileLine);
}

#[test]
fn lyricsfile_plain_fallback() {
    let yaml = r#"
version: '1.0'
metadata:
  title: Test
  artist: Artist
  duration_ms: 20000
lines: []
plain: |-
  hello world
  this is a test
"#;

    let lyrics = lyrics_from_file(&read(yaml), Some(Duration::from_secs(20))).unwrap();

    assert_eq!(lyrics.words.len(), 6);

    assert_eq!(lyrics.source, LyricsSource::PlainApprox);

    assert_eq!(lyrics.words[0].start, Duration::zero());

    assert!(lyrics.words.last().unwrap().start < Duration::from_secs(20));
}
