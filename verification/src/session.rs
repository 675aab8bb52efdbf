//! A session: a fixed time window holding an ordered list of talks whose
//! total duration never exceeds the window.

use crate::error::ScheduleError;
use crate::talk::{talk_views, Talk, TalkView};
use vstd::prelude::*;

verus! {

/// Mathematical value of a [`Session`]: its window bounds as minutes since
/// midnight and the views of its talks, in presentation order.
pub ghost struct SessionView {
    pub start: int,
    pub end: int,
    pub talks: Seq<TalkView>,
}

/// Sum of the durations of a sequence of talks, in minutes.
pub open spec fn sum_durations(ts: Seq<TalkView>) -> int
    decreases ts.len(),
{
    if ts.len() == 0 {
        0
    } else {
        ts[0].duration + sum_durations(ts.drop_first())
    }
}

impl SessionView {
    /// The session invariant: a real window and contained talks that fit it.
    pub open spec fn wf(self) -> bool {
        &&& 0 <= self.start < self.end <= u32::MAX
        &&& crate::talk::valid_talk_seq(self.talks)
        &&& sum_durations(self.talks) <= self.end - self.start
    }

    /// Whether one more talk still fits: the sum of contained durations plus
    /// the new one stays within the window (non-strict, so a talk that
    /// exactly fills the remaining capacity fits).
    pub open spec fn spec_fits(self, t: TalkView) -> bool {
        sum_durations(self.talks) + t.duration <= self.end - self.start
    }
}

/// A contiguous time window (morning or afternoon) with the talks assigned
/// to it, in presentation order. Start and end are minutes since midnight.
#[derive(Debug, PartialEq, Eq)]
pub struct Session {
    pub start: u32,
    pub end: u32,
    pub talks: Vec<Talk>,
}

impl View for Session {
    type V = SessionView;

    open spec fn view(&self) -> SessionView {
        SessionView {
            start: self.start as int,
            end: self.end as int,
            talks: talk_views(self.talks@),
        }
    }
}

/// Appending a talk adds its duration to the sum.
pub proof fn lemma_sum_push(ts: Seq<TalkView>, t: TalkView)
    ensures
        sum_durations(ts.push(t)) == sum_durations(ts) + t.duration,
    decreases ts.len(),
{
    assert(ts.push(t)[0] == if ts.len() == 0 { t } else { ts[0] });
    if ts.len() == 0 {
        assert(ts.push(t).drop_first() =~= Seq::<TalkView>::empty());
        assert(sum_durations(Seq::<TalkView>::empty()) == 0);
        assert(sum_durations(ts.push(t)) == t.duration + sum_durations(ts.push(t).drop_first()));
    } else {
        assert(ts.push(t).drop_first() =~= ts.drop_first().push(t));
        lemma_sum_push(ts.drop_first(), t);
        assert(sum_durations(ts.push(t)) == ts[0].duration + sum_durations(ts.push(t).drop_first()));
        assert(sum_durations(ts) == ts[0].duration + sum_durations(ts.drop_first()));
    }
}

/// A prefix of non-negative durations sums to no more than the whole.
pub proof fn lemma_sum_take_le(ts: Seq<TalkView>, i: int)
    requires
        0 <= i <= ts.len(),
        crate::talk::valid_talk_seq(ts),
    ensures
        sum_durations(ts.take(i)) <= sum_durations(ts),
        sum_durations(ts) >= 0,
    decreases ts.len(),
{
    if ts.len() == 0 {
        assert(ts.take(i) =~= ts);
    } else if i == 0 {
        assert(ts.take(0) =~= Seq::<TalkView>::empty());
        lemma_sum_take_le(ts.drop_first(), 0);
    } else {
        assert(ts.take(i).drop_first() =~= ts.drop_first().take(i - 1));
        lemma_sum_take_le(ts.drop_first(), i - 1);
    }
}

/// Taking one more element adds its duration to a prefix sum.
pub proof fn lemma_sum_take_step(ts: Seq<TalkView>, i: int)
    requires
        0 <= i < ts.len(),
    ensures
        sum_durations(ts.take(i + 1)) == sum_durations(ts.take(i)) + ts[i].duration,
{
    assert(ts.take(i + 1) =~= ts.take(i).push(ts[i]));
    lemma_sum_push(ts.take(i), ts[i]);
}

impl Session {
    /// The session invariant on the executable value.
    pub open spec fn wf(&self) -> bool {
        self@.wf()
    }

    /// Builds a session over a window known to be non-empty.
    pub(crate) fn with_window(start_minute: u32, end_minute: u32) -> (r: Session)
        requires
            start_minute < end_minute,
        ensures
            r@ == (SessionView {
                start: start_minute as int,
                end: end_minute as int,
                talks: Seq::<TalkView>::empty(),
            }),
            r.wf(),
    {
        let r = Session { start: start_minute, end: end_minute, talks: Vec::new() };
        proof {
            assert(talk_views(r.talks@) =~= Seq::<TalkView>::empty());
        }
        r
    }

    /// Creates an empty session over the given window, in minutes since
    /// midnight; the end must be strictly after the start, anything else is
    /// an invalid window.
    pub fn new(start_minute: u32, end_minute: u32) -> (r: Result<Session, ScheduleError>)
        ensures
            start_minute < end_minute ==> (r matches Ok(s) && s@ == (SessionView {
                start: start_minute as int,
                end: end_minute as int,
                talks: Seq::<TalkView>::empty(),
            }) && s.wf()),
            start_minute >= end_minute ==> (r matches Err(e) && e == ScheduleError::InvalidWindow),
    {
        if start_minute < end_minute {
            Ok(Session::with_window(start_minute, end_minute))
        } else {
            Err(ScheduleError::InvalidWindow)
        }
    }

    /// Length of the session window in minutes, constant over its lifetime.
    pub fn get_total_time(&self) -> (r: u32)
        requires
            self.wf(),
        ensures
            r == self@.end - self@.start,
    {
        self.end - self.start
    }

    /// End of the session window, in minutes since midnight.
    pub fn get_end_time(&self) -> (r: u32)
        ensures
            r == self@.end,
    {
        self.end
    }

    /// Sum of the durations of the talks the session currently holds.
    pub fn get_talk_duration(&self) -> (r: u32)
        requires
            self.wf(),
        ensures
            r == sum_durations(self@.talks),
    {
        let ghost all = self@.talks;
        let mut total: u32 = 0;
        let mut i: usize = 0;
        while i < self.talks.len()
            invariant
                self.wf(),
                all == self@.talks,
                0 <= i <= self.talks.len(),
                total == sum_durations(all.take(i as int)),
                total <= self@.end - self@.start,
            decreases self.talks.len() - i,
        {
            proof {
                lemma_sum_take_step(all, i as int);
                lemma_sum_take_le(all, i + 1);
            }
            total = total + self.talks[i].duration;
            i = i + 1;
        }
        proof {
            assert(all.take(self.talks@.len() as int) =~= all);
        }
        total
    }

    /// True iff the talk still fits: its duration plus the durations already
    /// assigned does not exceed the window.
    pub fn fits(&self, talk: &Talk) -> (r: bool)
        requires
            self.wf(),
        ensures
            r == self@.spec_fits(talk@),
    {
        let used = self.get_talk_duration();
        (used as u64) + (talk.duration as u64) <= (self.get_total_time() as u64)
    }

    /// Appends the talk to the session if it fits; otherwise leaves the
    /// session unchanged (a silent no-op — callers that need to know whether
    /// the talk was taken check [`Session::fits`] first). The invariant —
    /// contained durations never exceed the window — holds after every call.
    pub fn add(&mut self, talk: Talk)
        requires
            old(self).wf(),
        ensures
            final(self).wf(),
            old(self)@.spec_fits(talk@) ==> final(self)@ == (SessionView {
                talks: old(self)@.talks.push(talk@),
                ..old(self)@
            }),
            !old(self)@.spec_fits(talk@) ==> final(self)@ == old(self)@,
    {
        if self.fits(&talk) {
            proof {
                lemma_sum_push(self@.talks, talk@);
                assert(talk_views(self.talks@.push(talk)) =~= talk_views(self.talks@).push(talk@));
            }
            self.talks.push(talk);
        }
    }
}

} // verus!
