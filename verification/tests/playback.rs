use spotly::duration::Duration;
use spotly::lyrics::{Lyrics, LyricsSource, Track, Word};
use spotly::playback::{
    after_event, drift_action, render_step, track_from_parts, ClockState, LoopEvent,
    PlaybackStatus, RenderAction, Screen, SyncAction,
};

#[test]
fn paused_clock_stands_still() {
    let clock = ClockState::new(Duration::from_secs(10), PlaybackStatus::Paused);
    assert_eq!(clock.position(Duration::from_secs(5)), Duration::from_secs(10));
}

#[test]
fn playing_clock_advances() {
    let clock = ClockState::new(Duration::from_secs(10), PlaybackStatus::Playing);
    assert_eq!(clock.position(Duration::from_secs(5)), Duration::from_secs(15));
}

#[test]
fn status_change_keeps_position() {
    let mut clock = ClockState::new(Duration::from_secs(10), PlaybackStatus::Playing);
    let before = clock.position(Duration::from_secs(3));
    clock.set_status(Duration::from_secs(3), PlaybackStatus::Paused);
    assert_eq!(clock.position(Duration::zero()), before);
    assert_eq!(clock.status(), PlaybackStatus::Paused);
}

#[test]
fn sync_sets_position_and_status() {
    let mut clock = ClockState::new(Duration::from_secs(10), PlaybackStatus::Playing);
    clock.sync(Duration::from_secs(2), PlaybackStatus::Stopped);
    assert_eq!(clock.position(Duration::from_secs(7)), Duration::from_secs(2));
    clock.reanchor(Duration::from_secs(7));
    assert_eq!(clock.status(), PlaybackStatus::Stopped);
}

#[test]
fn drift_decides_how_to_resync() {
    let at = Duration::from_millis;
    assert_eq!(drift_action(at(1000), at(1000)), SyncAction::Keep);
    assert_eq!(drift_action(at(1059), at(1000)), SyncAction::Keep);
    assert_eq!(drift_action(at(1060), at(1000)), SyncAction::Correct);
    assert_eq!(drift_action(at(1000), at(1249)), SyncAction::Correct);
    assert_eq!(drift_action(at(1000), at(1250)), SyncAction::Reset);
    assert_eq!(drift_action(at(2000), at(1000)), SyncAction::Reset);
}

fn sample() -> Lyrics {
    Lyrics {
        words: vec![
            Word {
                text: "one".into(),
                start: Duration::from_secs(1),
            },
            Word {
                text: "one".into(),
                start: Duration::from_secs(2),
            },
        ],
        source: LyricsSource::SyncedLrc,
    }
}

#[test]
fn words_are_drawn_once_and_repeats_again() {
    let lyrics = sample();
    let mut screen = Screen::Blank;

    // Looked up 80 ms ahead: nothing is due yet, so the note shows.
    assert_eq!(
        render_step(Some(&lyrics), Duration::from_millis(900), &mut screen),
        RenderAction::Clear
    );
    assert_eq!(screen, Screen::Note);
    assert_eq!(
        render_step(Some(&lyrics), Duration::from_millis(910), &mut screen),
        RenderAction::Nothing
    );
    assert_eq!(
        render_step(Some(&lyrics), Duration::from_millis(920), &mut screen),
        RenderAction::Draw("one".to_string())
    );
    assert_eq!(
        render_step(Some(&lyrics), Duration::from_millis(1500), &mut screen),
        RenderAction::Nothing
    );
    // The same text at a new start is drawn again.
    assert_eq!(
        render_step(Some(&lyrics), Duration::from_millis(1950), &mut screen),
        RenderAction::Draw("one".to_string())
    );
    assert_eq!(screen, Screen::Word("one".to_string(), Duration::from_secs(2)));
}

#[test]
fn no_word_clears_once() {
    let mut screen = Screen::Word("x".to_string(), Duration::from_secs(1));
    assert_eq!(render_step(None, Duration::zero(), &mut screen), RenderAction::Clear);
    assert_eq!(screen, Screen::Note);
    assert_eq!(render_step(None, Duration::zero(), &mut screen), RenderAction::Nothing);
}

#[test]
fn the_note_shows_at_startup_without_lyrics() {
    let mut screen = Screen::Blank;
    assert_eq!(render_step(None, Duration::zero(), &mut screen), RenderAction::Clear);
    assert_eq!(screen, Screen::Note);
}

#[test]
fn a_redraw_after_a_reset_draws_the_same_word() {
    let lyrics = sample();
    let mut screen = Screen::Blank;
    assert_eq!(
        render_step(Some(&lyrics), Duration::from_millis(1000), &mut screen),
        RenderAction::Draw("one".to_string())
    );
    screen = after_event(screen, LoopEvent::Drifted(SyncAction::Reset)).unwrap();
    assert_eq!(screen, Screen::Blank);
    assert_eq!(
        render_step(Some(&lyrics), Duration::from_millis(1000), &mut screen),
        RenderAction::Draw("one".to_string())
    );
}

#[test]
fn loop_events_move_the_screen() {
    let shown = Screen::Word("w".to_string(), Duration::from_secs(3));
    assert_eq!(after_event(shown.clone(), LoopEvent::TrackChanged), Some(Screen::Note));
    assert_eq!(
        after_event(shown.clone(), LoopEvent::StatusChanged(PlaybackStatus::Stopped)),
        None
    );
    assert_eq!(
        after_event(shown.clone(), LoopEvent::StatusChanged(PlaybackStatus::Paused)),
        Some(Screen::Blank)
    );
    assert_eq!(after_event(shown.clone(), LoopEvent::RateChanged), Some(Screen::Blank));
    assert_eq!(
        after_event(shown.clone(), LoopEvent::Drifted(SyncAction::Correct)),
        Some(shown.clone())
    );
    assert_eq!(
        after_event(shown.clone(), LoopEvent::Drifted(SyncAction::Keep)),
        Some(shown)
    );
}

#[test]
fn track_parts_are_trimmed() {
    let track = track_from_parts(
        Some(" Song "),
        Some(" Artist "),
        Some("  "),
        Some(Duration::from_secs(200)),
    )
    .unwrap();
    assert_eq!(
        track,
        Track {
            title: "Song".to_string(),
            artist: "Artist".to_string(),
            album: None,
            duration: Some(Duration::from_secs(200)),
        }
    );
    let with_album = track_from_parts(Some("a"), Some("b"), Some(" c"), None).unwrap();
    assert_eq!(with_album.album, Some("c".to_string()));
}

#[test]
fn track_needs_title_and_artist() {
    assert!(track_from_parts(None, Some("b"), None, None).is_none());
    assert!(track_from_parts(Some("  "), Some("b"), None, None).is_none());
    assert!(track_from_parts(Some("a"), None, None, None).is_none());
    assert!(track_from_parts(Some("a"), Some("\n"), None, None).is_none());
}

#[test]
fn source_names() {
    assert_eq!(LyricsSource::LyricsFileWord.as_str(), "lyricsfile-word");
    assert_eq!(LyricsSource::LyricsFileLine.as_str(), "lyricsfile-line");
    assert_eq!(LyricsSource::SyncedLrc.as_str(), "synced-lrc");
    assert_eq!(LyricsSource::PlainApprox.as_str(), "plain-approx");
}
