//! Plain-text rendering: decimal numbers, clock times, talk lines, session
//! and track programmes.

use crate::session::{lemma_sum_take_le, lemma_sum_take_step, sum_durations, Session};
use crate::talk::{Talk, TalkView};
use crate::track::{Track, TrackView};
use vstd::prelude::*;

verus! {

/// The decimal digit character for `d`.
pub open spec fn digit_char(d: int) -> char {
    if d == 0 {
        '0'
    } else if d == 1 {
        '1'
    } else if d == 2 {
        '2'
    } else if d == 3 {
        '3'
    } else if d == 4 {
        '4'
    } else if d == 5 {
        '5'
    } else if d == 6 {
        '6'
    } else if d == 7 {
        '7'
    } else if d == 8 {
        '8'
    } else {
        '9'
    }
}

/// Decimal representation of a number, most significant digit first, no
/// leading zeros (zero itself is a single `'0'`).
pub open spec fn dec_rep(n: nat) -> Seq<char>
    decreases n,
{
    if n < 10 {
        seq![digit_char(n as int)]
    } else {
        dec_rep(n / 10) + seq![digit_char((n % 10) as int)]
    }
}

/// Decimal representation padded with a zero to at least two digits, the way
/// clock fields are written.
pub open spec fn pad2(n: nat) -> Seq<char> {
    if n < 10 {
        seq!['0'] + dec_rep(n)
    } else {
        dec_rep(n)
    }
}

/// A clock time `HH:MM:SS` for a whole number of minutes since midnight; the
/// seconds are always zero.
pub open spec fn clock_rep(minute: nat) -> Seq<char> {
    pad2(minute / 60) + seq![':'] + pad2(minute % 60) + seq![':', '0', '0']
}

/// The duration part of a talk line: the word `lightning` for exactly five
/// minutes, `<minutes>min` otherwise.
pub open spec fn duration_label(d: nat) -> Seq<char> {
    if d == 5 {
        seq!['l', 'i', 'g', 'h', 't', 'n', 'i', 'n', 'g']
    } else {
        dec_rep(d) + seq!['m', 'i', 'n']
    }
}

/// How one talk is written: its description, a space, its duration label.
pub open spec fn talk_line(t: TalkView) -> Seq<char> {
    t.description + seq![' '] + duration_label(t.duration as nat)
}

/// The lines of a session programme: each talk on its own line, prefixed by
/// the clock time it starts at; each start is the previous start plus the
/// previous talk's duration.
pub open spec fn session_lines(talks: Seq<TalkView>, minute: int) -> Seq<char>
    decreases talks.len(),
{
    if talks.len() == 0 {
        Seq::<char>::empty()
    } else {
        clock_rep(minute as nat) + seq![' '] + talk_line(talks[0]) + seq!['\n'] + session_lines(
            talks.drop_first(),
            minute + talks[0].duration,
        )
    }
}

/// A whole track: the morning programme, the lunch line at the morning's
/// end, the afternoon programme, the networking line at the afternoon's end.
pub open spec fn track_text(tr: TrackView) -> Seq<char> {
    session_lines(tr.morning.talks, tr.morning.start) + clock_rep(tr.morning.end as nat) + seq![
        ' ',
        'L',
        'u',
        'n',
        'c',
        'h',
        '\n',
    ] + session_lines(tr.afternoon.talks, tr.afternoon.start) + clock_rep(tr.afternoon.end as nat)
        + seq![' ', 'N', 'e', 't', 'w', 'o', 'r', 'k', 'i', 'n', 'g', ' ', 'E', 'v', 'e', 'n', 't', '\n']
}

/// The whole schedule: each track under a heading `Track <n>`, numbered from
/// `n0`, each followed by a blank line.
pub open spec fn schedule_text_from(ts: Seq<TrackView>, n0: nat) -> Seq<char>
    decreases ts.len(),
{
    if ts.len() == 0 {
        Seq::<char>::empty()
    } else {
        seq!['T', 'r', 'a', 'c', 'k', ' '] + dec_rep(n0) + seq!['\n'] + track_text(ts[0]) + seq![
            '\n',
        ] + schedule_text_from(ts.drop_first(), n0 + 1)
    }
}

/// The whole schedule with tracks numbered from one.
pub open spec fn schedule_text(ts: Seq<TrackView>) -> Seq<char> {
    schedule_text_from(ts, 1)
}

/// Appends one decimal digit character.
fn append_digit(out: &mut String, d: u64)
    requires
        d < 10,
    ensures
        final(out)@ == old(out)@ + seq![digit_char(d as int)],
{
    if d == 0 {
        proof {
            reveal_strlit("0");
        }
        out.append("0");
    } else if d == 1 {
        proof {
            reveal_strlit("1");
        }
        out.append("1");
    } else if d == 2 {
        proof {
            reveal_strlit("2");
        }
        out.append("2");
    } else if d == 3 {
        proof {
            reveal_strlit("3");
        }
        out.append("3");
    } else if d == 4 {
        proof {
            reveal_strlit("4");
        }
        out.append("4");
    } else if d == 5 {
        proof {
            reveal_strlit("5");
        }
        out.append("5");
    } else if d == 6 {
        proof {
            reveal_strlit("6");
        }
        out.append("6");
    } else if d == 7 {
        proof {
            reveal_strlit("7");
        }
        out.append("7");
    } else if d == 8 {
        proof {
            reveal_strlit("8");
        }
        out.append("8");
    } else {
        proof {
            reveal_strlit("9");
        }
        out.append("9");
    }
    proof {
        assert(final(out)@ =~= old(out)@ + seq![digit_char(d as int)]);
    }
}

/// Appends the decimal representation of `n`.
fn append_dec(out: &mut String, n: u64)
    ensures
        final(out)@ == old(out)@ + dec_rep(n as nat),
    decreases n,
{
    if n < 10 {
        append_digit(out, n);
    } else {
        append_dec(out, n / 10);
        append_digit(out, n % 10);
        proof {
            assert(final(out)@ =~= old(out)@ + dec_rep(n as nat));
        }
    }
}

/// Appends `n` as a clock field: zero-padded to at least two digits.
fn append_pad2(out: &mut String, n: u64)
    ensures
        final(out)@ == old(out)@ + pad2(n as nat),
{
    if n < 10 {
        proof {
            reveal_strlit("0");
        }
        out.append("0");
        append_dec(out, n);
        proof {
            assert(final(out)@ =~= old(out)@ + pad2(n as nat));
        }
    } else {
        append_dec(out, n);
    }
}

/// Appends a minute count since midnight as an `HH:MM:SS` clock time.
fn append_clock(out: &mut String, minute: u32)
    ensures
        final(out)@ == old(out)@ + clock_rep(minute as nat),
{
    append_pad2(out, (minute / 60) as u64);
    proof {
        reveal_strlit(":");
    }
    out.append(":");
    append_pad2(out, (minute % 60) as u64);
    proof {
        reveal_strlit(":00");
        assert(":00"@ =~= seq![':', '0', '0']);
    }
    out.append(":00");
    proof {
        assert((minute / 60) as nat == (minute as nat) / 60);
        assert((minute % 60) as nat == (minute as nat) % 60);
        assert(final(out)@ =~= old(out)@ + clock_rep(minute as nat));
    }
}

/// Appends the talk line body: description, space, duration label.
fn append_talk_line(out: &mut String, talk: &Talk)
    ensures
        final(out)@ == old(out)@ + talk_line(talk@),
{
    out.append(talk.description.as_str());
    proof {
        reveal_strlit(" ");
    }
    out.append(" ");
    if talk.duration == 5 {
        proof {
            reveal_strlit("lightning");
            assert("lightning"@ =~= seq!['l', 'i', 'g', 'h', 't', 'n', 'i', 'n', 'g']);
        }
        out.append("lightning");
    } else {
        append_dec(out, talk.duration as u64);
        proof {
            reveal_strlit("min");
            assert("min"@ =~= seq!['m', 'i', 'n']);
        }
        out.append("min");
    }
    proof {
        assert(final(out)@ =~= old(out)@ + talk_line(talk@));
    }
}

impl Talk {
    /// The talk as it is written in a programme: `<description> <label>`,
    /// where the label is `lightning` for a five-minute talk and
    /// `<minutes>min` otherwise.
    pub fn render(&self) -> (r: String)
        ensures
            r@ == talk_line(self@),
    {
        let mut out = String::new();
        append_talk_line(&mut out, self);
        proof {
            assert(Seq::<char>::empty() + talk_line(self@) =~= talk_line(self@));
        }
        out
    }
}

impl Session {
    /// The session programme: one line per talk, clock time first, each
    /// start the previous start plus the previous talk's duration, beginning
    /// at the session's own start.
    pub fn render(&self) -> (r: String)
        requires
            self.wf(),
        ensures
            r@ == session_lines(self@.talks, self@.start),
    {
        let ghost all = self@.talks;
        let mut out = String::new();
        let mut minute: u32 = self.start;
        let mut i: usize = 0;
        proof {
            assert(all.skip(0) =~= all);
            assert(Seq::<char>::empty() + session_lines(all, self@.start) =~= session_lines(
                all,
                self@.start,
            ));
            assert(sum_durations(all.take(0)) == 0);
        }
        while i < self.talks.len()
            invariant
                self.wf(),
                all == self@.talks,
                0 <= i <= self.talks.len(),
                minute == self@.start + sum_durations(all.take(i as int)),
                minute <= self@.end,
                out@ + session_lines(all.skip(i as int), minute as int) == session_lines(
                    all,
                    self@.start,
                ),
            decreases self.talks.len() - i,
        {
            proof {
                assert(all.skip(i as int)[0] == all[i as int]);
                assert(all.skip(i as int).drop_first() =~= all.skip(i as int + 1));
                lemma_sum_take_step(all, i as int);
                lemma_sum_take_le(all, i as int + 1);
            }
            append_clock(&mut out, minute);
            proof {
                reveal_strlit(" ");
            }
            out.append(" ");
            append_talk_line(&mut out, &self.talks[i]);
            proof {
                reveal_strlit("\n");
            }
            out.append("\n");
            minute = minute + self.talks[i].duration;
            proof {
                assert(out@ + session_lines(all.skip(i as int + 1), minute as int)
                    =~= session_lines(all, self@.start));
            }
            i = i + 1;
        }
        proof {
            assert(all.skip(i as int) =~= Seq::<TalkView>::empty());
            assert(out@ + Seq::<char>::empty() =~= out@);
        }
        out
    }
}

impl Track {
    /// The track programme: the morning lines, the lunch line at the
    /// morning's end, the afternoon lines, the networking line at the
    /// afternoon's end.
    pub fn render(&self) -> (r: String)
        requires
            self.wf(),
        ensures
            r@ == track_text(self@),
    {
        let mut out = self.morning.render();
        append_clock(&mut out, self.morning.get_end_time());
        proof {
            reveal_strlit(" Lunch\n");
            assert(" Lunch\n"@ =~= seq![' ', 'L', 'u', 'n', 'c', 'h', '\n']);
        }
        out.append(" Lunch\n");
        let afternoon = self.afternoon.render();
        out.append(afternoon.as_str());
        append_clock(&mut out, self.afternoon.get_end_time());
        proof {
            reveal_strlit(" Networking Event\n");
            assert(" Networking Event\n"@ =~= seq![
                ' ',
                'N',
                'e',
                't',
                'w',
                'o',
                'r',
                'k',
                'i',
                'n',
                'g',
                ' ',
                'E',
                'v',
                'e',
                'n',
                't',
                '\n',
            ]);
        }
        out.append(" Networking Event\n");
        proof {
            assert(out@ =~= track_text(self@));
        }
        out
    }
}

/// The whole schedule as text: each track under a `Track <n>` heading,
/// numbered from one, each followed by a blank line — ready to print.
#[verifier::loop_isolation(false)]
pub fn render_schedule(tracks: &Vec<Track>) -> (r: String)
    requires
        forall|k: int| 0 <= k < tracks@.len() ==> (#[trigger] tracks@[k])@.wf(),
    ensures
        r@ == schedule_text(crate::track::track_views(tracks@)),
{
    let ghost all = crate::track::track_views(tracks@);
    let mut out = String::new();
    let mut i: usize = 0;
    proof {
        assert(all.skip(0) =~= all);
        assert(Seq::<char>::empty() + schedule_text_from(all, 1) =~= schedule_text_from(all, 1));
    }
    while i < tracks.len()
        invariant
            0 <= i <= tracks.len(),
            out@ + schedule_text_from(all.skip(i as int), (i + 1) as nat) == schedule_text_from(
                all,
                1,
            ),
        decreases tracks.len() - i,
    {
        proof {
            assert(all.skip(i as int)[0] == tracks@[i as int]@);
            assert(all.skip(i as int).drop_first() =~= all.skip(i as int + 1));
            reveal_strlit("Track ");
            assert("Track "@ =~= seq!['T', 'r', 'a', 'c', 'k', ' ']);
            reveal_strlit("\n");
        }
        out.append("Track ");
        append_dec(&mut out, (i as u64) + 1);
        out.append("\n");
        let text = tracks[i].render();
        out.append(text.as_str());
        out.append("\n");
        proof {
            assert(out@ + schedule_text_from(all.skip(i as int + 1), (i + 2) as nat)
                =~= schedule_text_from(all, 1));
        }
        i = i + 1;
    }
    proof {
        assert(all.skip(i as int) =~= Seq::<TrackView>::empty());
        assert(out@ + Seq::<char>::empty() =~= out@);
    }
    out
}

} // verus!
