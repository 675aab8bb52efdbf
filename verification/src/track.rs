//! A track: one conference day, pairing a fixed morning session
//! (09:00–12:00) and a fixed afternoon session (13:00–17:00).

use crate::session::{Session, SessionView};
use crate::talk::{Talk, TalkView};
use vstd::prelude::*;

verus! {

/// Start of the morning session, in minutes since midnight (09:00).
pub const MORNING_START_MINUTE: u32 = 9 * 60;

/// End of the morning session, in minutes since midnight (12:00).
pub const MORNING_END_MINUTE: u32 = 12 * 60;

/// Start of the afternoon session, in minutes since midnight (13:00).
pub const AFTERNOON_START_MINUTE: u32 = 13 * 60;

/// End of the afternoon session, in minutes since midnight (17:00).
pub const AFTERNOON_END_MINUTE: u32 = 17 * 60;

/// The longest window any session offers, in minutes: the four-hour
/// afternoon. A talk longer than this can never be placed anywhere.
pub const MAX_SESSION_MINUTES: u32 = 4 * 60;

/// Mathematical value of a [`Track`]: its two sessions.
pub ghost struct TrackView {
    pub morning: SessionView,
    pub afternoon: SessionView,
}

impl TrackView {
    /// The track invariant: both sessions well formed, over the fixed
    /// standard windows of a conference day.
    pub open spec fn wf(self) -> bool {
        &&& self.morning.wf()
        &&& self.afternoon.wf()
        &&& self.morning.start == MORNING_START_MINUTE
        &&& self.morning.end == MORNING_END_MINUTE
        &&& self.afternoon.start == AFTERNOON_START_MINUTE
        &&& self.afternoon.end == AFTERNOON_END_MINUTE
    }

    /// Whether the talk fits in at least one of the two sessions.
    pub open spec fn spec_fits(self, t: TalkView) -> bool {
        self.morning.spec_fits(t) || self.afternoon.spec_fits(t)
    }

    /// All talks the track holds: morning first, then afternoon.
    pub open spec fn all_talks(self) -> Seq<TalkView> {
        self.morning.talks + self.afternoon.talks
    }
}

/// A fresh track: both sessions empty, over the standard windows.
pub open spec fn empty_track_view() -> TrackView {
    TrackView {
        morning: SessionView {
            start: MORNING_START_MINUTE as int,
            end: MORNING_END_MINUTE as int,
            talks: Seq::<TalkView>::empty(),
        },
        afternoon: SessionView {
            start: AFTERNOON_START_MINUTE as int,
            end: AFTERNOON_END_MINUTE as int,
            talks: Seq::<TalkView>::empty(),
        },
    }
}

/// What offering a talk to a track does: the morning session is tried first,
/// then the afternoon; the flag says whether the talk was placed. A track
/// that cannot take the talk is returned unchanged.
pub open spec fn spec_track_add(tr: TrackView, t: TalkView) -> (TrackView, bool) {
    if tr.morning.spec_fits(t) {
        (
            TrackView {
                morning: SessionView { talks: tr.morning.talks.push(t), ..tr.morning },
                ..tr
            },
            true,
        )
    } else if tr.afternoon.spec_fits(t) {
        (
            TrackView {
                afternoon: SessionView { talks: tr.afternoon.talks.push(t), ..tr.afternoon },
                ..tr
            },
            true,
        )
    } else {
        (tr, false)
    }
}

/// One conference day: a morning and an afternoon session over fixed
/// windows; talks can be added while they fit.
#[derive(Debug, PartialEq, Eq)]
pub struct Track {
    pub morning: Session,
    pub afternoon: Session,
}

impl View for Track {
    type V = TrackView;

    open spec fn view(&self) -> TrackView {
        TrackView { morning: self.morning@, afternoon: self.afternoon@ }
    }
}

/// The views of a sequence of tracks.
pub open spec fn track_views(ts: Seq<Track>) -> Seq<TrackView> {
    ts.map_values(|t: Track| t@)
}

impl Track {
    /// The track invariant on the executable value.
    pub open spec fn wf(&self) -> bool {
        self@.wf()
    }

    /// A fresh track with an empty 09:00–12:00 morning session and an empty
    /// 13:00–17:00 afternoon session.
    pub fn new() -> (r: Track)
        ensures
            r@ == empty_track_view(),
            r.wf(),
    {
        Track {
            morning: Session::with_window(MORNING_START_MINUTE, MORNING_END_MINUTE),
            afternoon: Session::with_window(AFTERNOON_START_MINUTE, AFTERNOON_END_MINUTE),
        }
    }

    /// Tries the morning session first, then the afternoon; returns true iff
    /// the talk was placed. A talk that fits both sessions always lands in
    /// the morning; a talk that fits neither leaves the track unchanged.
    pub fn add(&mut self, talk: Talk) -> (r: bool)
        requires
            old(self).wf(),
        ensures
            final(self).wf(),
            (final(self)@, r) == spec_track_add(old(self)@, talk@),
            r == old(self)@.spec_fits(talk@),
            old(self)@.morning.spec_fits(talk@) ==> final(self)@ == (TrackView {
                morning: SessionView {
                    talks: old(self)@.morning.talks.push(talk@),
                    ..old(self)@.morning
                },
                ..old(self)@
            }),
            !old(self)@.spec_fits(talk@) ==> final(self)@ == old(self)@ && !r,
    {
        if self.morning.fits(&talk) {
            self.morning.add(talk);
            true
        } else if self.afternoon.fits(&talk) {
            self.afternoon.add(talk);
            true
        } else {
            false
        }
    }

    /// True iff the talk fits in the morning or the afternoon session, with
    /// no change to the track.
    pub fn fits(&self, talk: &Talk) -> (r: bool)
        requires
            self.wf(),
        ensures
            r == self@.spec_fits(talk@),
    {
        self.morning.fits(talk) || self.afternoon.fits(talk)
    }
}

} // verus!
