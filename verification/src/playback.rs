use vstd::prelude::*;

use crate::duration::{Duration, NANOS_PER_MILLI, clamp_nanos};
use crate::lyrics::{Lyrics, Track, WordView, words_view, latest_word, is_boundary};
use crate::order::sorted_by_start;
use crate::text::{trim, chars_of, trim_bounds, copy_range, string_of};

verus! {

/// Whether the player plays, has paused or has stopped.
#[derive(Debug, Clone, Copy, PartialEq, Eq, Structural)]
pub enum PlaybackStatus {
    Playing,
    Paused,
    Stopped,
}

/// Where playback stood when last synchronised, and whether it plays. While
/// it plays, the position moves on by the time that has passed since, scaled
/// by the playback rate; that advance is measured outside.
#[derive(Debug, Clone, Copy)]
pub struct ClockState {
    position: Duration,
    status: PlaybackStatus,
}

impl ClockState {
    /// The position at the last synchronisation.
    pub closed spec fn anchor(self) -> nat {
        self.position@
    }

    /// Whether the player plays, has paused or has stopped.
    pub closed spec fn spec_status(self) -> PlaybackStatus {
        self.status
    }

    /// The position after playback has advanced by `advanced` nanoseconds:
    /// moved on while playing, unchanged otherwise.
    pub open spec fn position_after(self, advanced: nat) -> nat {
        if self.spec_status() == PlaybackStatus::Playing {
            clamp_nanos(self.anchor() + advanced)
        } else {
            self.anchor()
        }
    }

    /// A clock at `position` with the given status.
    pub fn new(position: Duration, status: PlaybackStatus) -> (c: ClockState)
        ensures
            c.anchor() == position@,
            c.spec_status() == status,
    {
        ClockState { position, status }
    }

    /// The current position, `advanced` being how far playback has moved since
    /// the last synchronisation at the playback rate.
    pub fn position(&self, advanced: Duration) -> (p: Duration)
        ensures
            p@ == self.position_after(advanced@),
    {
        if self.status != PlaybackStatus::Playing {
            return self.position;
        }
        self.position.saturating_add(advanced)
    }

    /// Hard synchronisation with the player.
    pub fn sync(&mut self, position: Duration, status: PlaybackStatus)
        ensures
            final(self).anchor() == position@,
            final(self).spec_status() == status,
    {
        self.position = position;
        self.status = status;
    }

    /// Changes the playback status without changing the current position.
    pub fn set_status(&mut self, advanced: Duration, status: PlaybackStatus)
        ensures
            final(self).anchor() == old(self).position_after(advanced@),
            final(self).spec_status() == status,
    {
        let current = self.position(advanced);
        self.position = current;
        self.status = status;
    }

    /// Fixes the current position as the new anchor, as a change of playback
    /// rate needs.
    pub fn reanchor(&mut self, advanced: Duration)
        ensures
            final(self).anchor() == old(self).position_after(advanced@),
            final(self).spec_status() == old(self).spec_status(),
    {
        let current = self.position(advanced);
        self.position = current;
    }

    /// Whether the player plays, has paused or has stopped.
    pub fn status(&self) -> (s: PlaybackStatus)
        ensures
            s == self.spec_status(),
    {
        self.status
    }
}

/// A paused or stopped clock stands still.
pub proof fn law_still_unless_playing(c: ClockState, a: nat, b: nat)
    requires
        c.spec_status() != PlaybackStatus::Playing,
    ensures
        c.position_after(a) == c.position_after(b),
{
}

/// A playing clock never goes back.
pub proof fn law_playing_moves_forward(c: ClockState, a: nat, b: nat)
    requires
        a <= b,
    ensures
        c.position_after(a) <= c.position_after(b),
{
}

/// Changing the status leaves the current position where it is: right after
/// the change, the clock reads what it read before.
pub proof fn law_status_change_keeps_position(before: ClockState, after: ClockState, advanced: nat)
    requires
        after.anchor() == before.position_after(advanced),
        before.position_after(advanced) <= crate::duration::MAX_NANOS,
    ensures
        after.position_after(0) == before.position_after(advanced),
{
}

// ---------------------------------------------------------------------------
// Keeping the clock in step with the player.

/// The drift at or above which the clock is reset and the word drawn again.
pub open spec fn hard_drift() -> nat {
    (250 * NANOS_PER_MILLI) as nat
}

/// The drift at or above which the clock is corrected.
pub open spec fn soft_drift() -> nat {
    (60 * NANOS_PER_MILLI) as nat
}

/// What to do with the clock after comparing it with the player.
#[derive(Debug, Clone, Copy, PartialEq, Eq, Structural)]
pub enum SyncAction {
    /// Close enough: leave the clock alone.
    Keep,
    /// Small drift: synchronise the clock, keep the word shown.
    Correct,
    /// Large drift: synchronise the clock and draw the word again.
    Reset,
}

/// The distance between two positions.
pub open spec fn distance(a: nat, b: nat) -> nat {
    if a >= b {
        (a - b) as nat
    } else {
        (b - a) as nat
    }
}

/// What to do when the player reports `player` and the clock reads `local`.
pub fn drift_action(player: Duration, local: Duration) -> (a: SyncAction)
    ensures
        a == (if distance(player@, local@) >= hard_drift() {
            SyncAction::Reset
        } else if distance(player@, local@) >= soft_drift() {
            SyncAction::Correct
        } else {
            SyncAction::Keep
        }),
{
    let drift = if local.le(&player) {
        player.saturating_sub(local)
    } else {
        local.saturating_sub(player)
    };
    if Duration::from_millis(250).le(&drift) {
        SyncAction::Reset
    } else if Duration::from_millis(60).le(&drift) {
        SyncAction::Correct
    } else {
        SyncAction::Keep
    }
}

// ---------------------------------------------------------------------------
// Drawing the current word.

/// How far ahead of the clock words are looked up, so that they show as they
/// are sung: 80 ms.
pub open spec fn lyrics_lead() -> nat {
    (80 * NANOS_PER_MILLI) as nat
}

/// What to draw.
#[derive(Debug, Clone, PartialEq, Eq)]
pub enum RenderAction {
    /// Draw this word.
    Draw(String),
    /// Draw the note that stands for no word.
    Clear,
    /// Leave the screen as it is.
    Nothing,
}

/// What the screen shows, as far as drawing is concerned.
#[derive(Debug, Clone, PartialEq, Eq)]
pub enum Screen {
    /// Nothing is known to be drawn: the next step draws whatever is due.
    Blank,
    /// The note that stands for no word.
    Note,
    /// This word, with its start; two occurrences of a word are told apart by
    /// their starts.
    Word(String, Duration),
}

/// Whether the screen shows the word `w`, in text and start.
pub open spec fn shows(screen: Screen, w: WordView) -> bool {
    match screen {
        Screen::Word(t, s) => t@ == w.text && s@ == w.start,
        _ => false,
    }
}

/// One drawing step where the word `w` is due: nothing to do where it is
/// shown already, else it is drawn and then shown.
pub open spec fn step_to_word(before: Screen, after: Screen, action: RenderAction, w: WordView) -> bool {
    if shows(before, w) {
        action == RenderAction::Nothing && after == before
    } else {
        (action matches RenderAction::Draw(t) && t@ == w.text) && shows(after, w)
    }
}

/// One drawing step where no word is due: the note is drawn unless it is
/// shown already.
pub open spec fn step_to_note(before: Screen, action: RenderAction, after: Screen) -> bool {
    &&& after == Screen::Note
    &&& if before == Screen::Note {
        action == RenderAction::Nothing
    } else {
        action == RenderAction::Clear
    }
}

/// Whether `lyrics` holds no word that starts by `lookup`, judged by its
/// first word.
pub open spec fn nothing_due(lyrics: Option<&Lyrics>, lookup: nat) -> bool {
    match lyrics {
        Some(l) => l.words.len() == 0 || l.words[0].start@ > lookup,
        None => true,
    }
}

/// Decides what to draw at clock position `position`, given what the screen
/// shows, and records in `screen` what it shows afterwards. The word is
/// looked up `lyrics_lead` ahead: a word is drawn where it differs, in text or
/// start, from the one shown; where none is due, the note is drawn unless it
/// is shown already (so it also shows before anything else was drawn).
pub fn render_step(lyrics: Option<&Lyrics>, position: Duration, screen: &mut Screen) -> (action:
    RenderAction)
    ensures
        ({
            let lookup = clamp_nanos(position@ + lyrics_lead());
            ||| (lyrics matches Some(l) && exists|k: int|
                is_boundary(words_view(l.words@), lookup, k) && step_to_word(
                    *old(screen),
                    *final(screen),
                    action,
                    #[trigger] crate::lyrics::word_view(l.words[k]),
                ))
            ||| (nothing_due(lyrics, lookup) && step_to_note(*old(screen), action, *final(screen)))
        }),
        ({
            let lookup = clamp_nanos(position@ + lyrics_lead());
            match lyrics {
                Some(l) => sorted_by_start(words_view(l.words@)) ==> match latest_word(
                    words_view(l.words@),
                    lookup,
                ) {
                    Some(w) => step_to_word(*old(screen), *final(screen), action, w),
                    None => step_to_note(*old(screen), action, *final(screen)),
                },
                None => step_to_note(*old(screen), action, *final(screen)),
            }
        }),
{
    let lookup_position = position.saturating_add(Duration::from_millis(80));
    let current = match lyrics {
        Some(l) => l.word_at_with_timing(lookup_position),
        None => None,
    };
    match current {
        Some((word, timestamp)) => {
            proof {
                let l = lyrics.unwrap();
                let k = choose|k: int|
                    is_boundary(words_view(l.words@), lookup_position@, k) && #[trigger] l.words[k].text@
                        == word@ && l.words[k].start == timestamp;
                assert(is_boundary(words_view(l.words@), lookup_position@, k));
                assert(crate::lyrics::word_view(l.words[k]) == WordView { text: word@, start: timestamp@ });
            }
            let unchanged = match &*screen {
                Screen::Word(last_text, last_timestamp) => str_eq(last_text.as_str(), word)
                    && last_timestamp.same_as(&timestamp),
                _ => false,
            };
            if unchanged {
                RenderAction::Nothing
            } else {
                let text = string_of(chars_of(word).as_slice());
                let shown = string_of(chars_of(word).as_slice());
                *screen = Screen::Word(shown, timestamp);
                RenderAction::Draw(text)
            }
        },
        None => {
            let noted = match &*screen {
                Screen::Note => true,
                _ => false,
            };
            *screen = Screen::Note;
            if noted {
                RenderAction::Nothing
            } else {
                RenderAction::Clear
            }
        },
    }
}

/// What the player reported between two drawing steps.
#[derive(Debug, Clone, Copy, PartialEq, Eq, Structural)]
pub enum LoopEvent {
    /// Another track plays; the note has been drawn at once in its place.
    TrackChanged,
    /// The player changed to this status.
    StatusChanged(PlaybackStatus),
    /// The playback rate changed.
    RateChanged,
    /// The clock was compared with the player, with this outcome.
    Drifted(SyncAction),
}

/// What the screen counts as showing after `event`, or `None` where the
/// program stops (the player stopped). A track change leaves the note shown;
/// a status or rate change and a large drift have the next step draw again;
/// a small drift or none leaves the screen as it was.
pub fn after_event(screen: Screen, event: LoopEvent) -> (next: Option<Screen>)
    ensures
        next == match event {
            LoopEvent::TrackChanged => Some(Screen::Note),
            LoopEvent::StatusChanged(PlaybackStatus::Stopped) => None,
            LoopEvent::StatusChanged(_) => Some(Screen::Blank),
            LoopEvent::RateChanged => Some(Screen::Blank),
            LoopEvent::Drifted(SyncAction::Reset) => Some(Screen::Blank),
            LoopEvent::Drifted(_) => Some(screen),
        },
{
    match event {
        LoopEvent::TrackChanged => Some(Screen::Note),
        LoopEvent::StatusChanged(PlaybackStatus::Stopped) => None,
        LoopEvent::StatusChanged(_) => Some(Screen::Blank),
        LoopEvent::RateChanged => Some(Screen::Blank),
        LoopEvent::Drifted(SyncAction::Reset) => Some(Screen::Blank),
        LoopEvent::Drifted(_) => Some(screen),
    }
}

/// Whether two strings hold the same chars.
pub fn str_eq(a: &str, b: &str) -> (r: bool)
    ensures
        r == (a@ == b@),
{
    let x = chars_of(a);
    let y = chars_of(b);
    crate::lrc::chars_eq(&x, &y)
}

// ---------------------------------------------------------------------------
// The track that plays.

/// Whether `o` holds text that is not blank.
pub open spec fn present(o: Option<&str>) -> bool {
    match o {
        Some(t) => trim(t@).len() > 0,
        None => false,
    }
}

/// The trimmed text of `s`, where it is not blank.
fn nonblank_trimmed(s: &str) -> (r: Option<String>)
    ensures
        match r {
            Some(t) => t@ == trim(s@) && trim(s@).len() > 0,
            None => trim(s@).len() == 0,
        },
{
    let chars = chars_of(s);
    let (a, b) = trim_bounds(&chars, 0, chars.len());
    assert(chars@.subrange(0, chars.len() as int) =~= s@);
    if a < b {
        Some(string_of(copy_range(&chars, a, b).as_slice()))
    } else {
        None
    }
}

/// The track that the player describes: its title, first artist and album,
/// trimmed, and its length; `None` where there is no title or first artist
/// or either is blank. A blank album counts as none.
pub fn track_from_parts(
    title: Option<&str>,
    first_artist: Option<&str>,
    album: Option<&str>,
    length: Option<Duration>,
) -> (r: Option<Track>)
    ensures
        match r {
            None => !(present(title) && present(first_artist)),
            Some(track) => {
                &&& title matches Some(t) && track.title@ == trim(t@) && trim(t@).len() > 0
                &&& first_artist matches Some(a) && track.artist@ == trim(a@) && trim(a@).len() > 0
                &&& match album {
                    Some(al) => if trim(al@).len() > 0 {
                        track.album matches Some(x) && x@ == trim(al@)
                    } else {
                        track.album is None
                    },
                    None => track.album is None,
                }
                &&& track.duration == length
            },
        },
{
    let title = match title {
        Some(t) => match nonblank_trimmed(t) {
            Some(x) => x,
            None => {
                return None;
            },
        },
        None => {
            return None;
        },
    };
    let artist = match first_artist {
        Some(a) => match nonblank_trimmed(a) {
            Some(x) => x,
            None => {
                return None;
            },
        },
        None => {
            return None;
        },
    };
    let album = match album {
        Some(al) => nonblank_trimmed(al),
        None => None,
    };
    Some(Track { title, artist, album, duration: length })
}

} // verus!
