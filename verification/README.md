# spotly

A terminal lyrics client: it follows the track that plays in a media player
over MPRIS, fetches its lyrics from LRCLIB and shows the word being sung in
large block letters.

The library in `src/` holds the logic, verified with Verus:

- `duration`: spans of time in nanoseconds, saturating at the longest span.
- `text`: whitespace, trimming, lines and words as `str` gives them.
- `timestamp`: `mm:ss.xx` and `ss.xx` timestamps, read exactly, rounded to
  the nanosecond with halves to even.
- `overflow`: which decimal numbers `f64` parsing takes for infinity.
- `timing`: word weights and the sharing of a line's time among its words.
- `order`: the stable sort by start time, with its laws.
- `lyrics`, `lrc`, `plain`, `lyricsfile`: the lyric formats and what each gives.
- `lookup`: what to ask LRCLIB and which of its answers to take.
- `playback`: the local playback clock, resynchronisation, what the screen
  shows and what to draw next.
- `render`: the block-letter glyphs and the centred frame.
- `laws`: properties that span functions.

`app/` holds the program around it: D-Bus, HTTP, JSON and YAML, the terminal,
and the floating-point arithmetic of the playback rate.
