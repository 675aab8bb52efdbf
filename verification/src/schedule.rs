//! The scheduler: sorts talks by duration, longest first, and packs them
//! greedily into as many tracks as the passes need (first-fit decreasing).

use crate::error::ScheduleError;
use crate::talk::{talk_views, valid_talk_seq, Talk, TalkView};
use crate::track::{
    empty_track_view, spec_track_add, track_views, Track, TrackView, MAX_SESSION_MINUTES,
};
use vstd::multiset::Multiset;
use vstd::prelude::*;
use vstd::seq_lib::group_to_multiset_ensures;

verus! {

/// Inserts `t` into a descending-sorted sequence, after every talk whose
/// duration is at least `t`'s: the insertion a stable sort makes.
pub open spec fn insert_desc(s: Seq<TalkView>, t: TalkView) -> Seq<TalkView>
    decreases s.len(),
{
    if s.len() == 0 {
        seq![t]
    } else if s[0].duration >= t.duration {
        seq![s[0]] + insert_desc(s.drop_first(), t)
    } else {
        seq![t] + s
    }
}

/// Stable sort by duration, longest first: talks of equal duration keep
/// their relative input order.
pub open spec fn sort_desc(s: Seq<TalkView>) -> Seq<TalkView>
    decreases s.len(),
{
    if s.len() == 0 {
        Seq::<TalkView>::empty()
    } else {
        insert_desc(sort_desc(s.drop_last()), s.last())
    }
}

/// Durations never increase along the sequence.
pub open spec fn sorted_desc(s: Seq<TalkView>) -> bool {
    forall|i: int, j: int| 0 <= i <= j < s.len() ==> s[i].duration >= s[j].duration
}

proof fn lemma_insert_desc_len(s: Seq<TalkView>, t: TalkView)
    ensures
        insert_desc(s, t).len() == s.len() + 1,
    decreases s.len(),
{
    if s.len() > 0 && s[0].duration >= t.duration {
        lemma_insert_desc_len(s.drop_first(), t);
    }
}

proof fn lemma_insert_desc_multiset(s: Seq<TalkView>, t: TalkView)
    ensures
        insert_desc(s, t).to_multiset() == s.to_multiset().insert(t),
    decreases s.len(),
{
    broadcast use group_to_multiset_ensures;

    if s.len() == 0 {
        assert(insert_desc(s, t) =~= Seq::<TalkView>::empty().push(t));
        assert(s.to_multiset().insert(t) =~= Seq::<TalkView>::empty().to_multiset().insert(t));
    } else if s[0].duration >= t.duration {
        lemma_insert_desc_multiset(s.drop_first(), t);
        assert(seq![s[0]] + insert_desc(s.drop_first(), t) =~= insert_desc(
            s.drop_first(),
            t,
        ).insert(0, s[0]));
        assert(s =~= s.drop_first().insert(0, s[0]));
        lemma_to_multiset_insert0(s.drop_first(), s[0]);
        lemma_to_multiset_insert0(insert_desc(s.drop_first(), t), s[0]);
        assert(insert_desc(s.drop_first(), t).to_multiset().insert(s[0]) =~= s.drop_first()
            .to_multiset()
            .insert(t)
            .insert(s[0]));
        assert(s.drop_first().to_multiset().insert(t).insert(s[0]) =~= s.drop_first()
            .to_multiset()
            .insert(s[0])
            .insert(t));
    } else {
        assert(seq![t] + s =~= s.insert(0, t));
        lemma_to_multiset_insert0(s, t);
    }
}

/// Prepending an element inserts it into the multiset.
proof fn lemma_to_multiset_insert0(s: Seq<TalkView>, t: TalkView)
    ensures
        s.insert(0, t).to_multiset() == s.to_multiset().insert(t),
{
    broadcast use group_to_multiset_ensures;

    let a = s.insert(0, t);
    assert(a.len() == s.len() + 1);
    assert(a[0] == t);
    assert(a.drop_first() =~= s);
    assert(a.to_multiset() =~= Multiset::<TalkView>::empty().insert(a[0]).add(
        a.drop_first().to_multiset(),
    ));
    assert(Multiset::<TalkView>::empty().insert(t).add(s.to_multiset()) =~= s.to_multiset()
        .insert(t));
}

proof fn lemma_insert_desc_sorted(s: Seq<TalkView>, t: TalkView)
    requires
        sorted_desc(s),
    ensures
        sorted_desc(insert_desc(s, t)),
    decreases s.len(),
{
    lemma_insert_desc_len(s, t);
    if s.len() == 0 {
    } else if s[0].duration >= t.duration {
        assert(sorted_desc(s.drop_first()));
        lemma_insert_desc_sorted(s.drop_first(), t);
        lemma_insert_desc_len(s.drop_first(), t);
        let r = seq![s[0]] + insert_desc(s.drop_first(), t);
        // every element of the inserted tail is bounded by s[0]
        assert forall|j: int| 1 <= j < r.len() implies s[0].duration >= r[j].duration by {
            lemma_insert_desc_elems(s.drop_first(), t, j - 1);
        }
    }
}

/// Every element of `insert_desc(s, t)` is `t` or an element of `s`.
proof fn lemma_insert_desc_elems(s: Seq<TalkView>, t: TalkView, j: int)
    requires
        0 <= j < insert_desc(s, t).len(),
    ensures
        insert_desc(s, t)[j] == t || exists|k: int| 0 <= k < s.len() && s[k] == insert_desc(s, t)[j],
    decreases s.len(),
{
    lemma_insert_desc_len(s, t);
    if s.len() == 0 {
    } else if s[0].duration >= t.duration {
        if j > 0 {
            lemma_insert_desc_elems(s.drop_first(), t, j - 1);
            if insert_desc(s, t)[j] != t {
                let k = choose|k: int|
                    0 <= k < s.drop_first().len() && s.drop_first()[k] == insert_desc(
                        s.drop_first(),
                        t,
                    )[j - 1];
                assert(s[k + 1] == insert_desc(s, t)[j]);
            }
        }
    }
}

/// The positional form of [`insert_desc`]: if everything before `idx` is at
/// least as long as `t` and `idx` is the first place where something is
/// strictly shorter (or the end), the insertion lands exactly at `idx`.
proof fn lemma_insert_desc_at(s: Seq<TalkView>, t: TalkView, idx: int)
    requires
        0 <= idx <= s.len(),
        forall|k: int| 0 <= k < idx ==> (#[trigger] s[k]).duration >= t.duration,
        idx < s.len() ==> s[idx].duration < t.duration,
    ensures
        insert_desc(s, t) == s.insert(idx, t),
    decreases idx,
{
    if idx == 0 {
        if s.len() == 0 {
            assert(insert_desc(s, t) =~= s.insert(0, t));
        } else {
            assert(s[0].duration < t.duration);
            assert(seq![t] + s =~= s.insert(0, t));
        }
    } else {
        assert(s[0].duration >= t.duration);
        lemma_insert_desc_at(s.drop_first(), t, idx - 1);
        assert(seq![s[0]] + s.drop_first().insert(idx - 1, t) =~= s.insert(idx, t));
    }
}

/// The sort permutes its input: same talks, same number of times.
pub proof fn lemma_sort_desc_multiset(s: Seq<TalkView>)
    ensures
        sort_desc(s).to_multiset() == s.to_multiset(),
        sort_desc(s).len() == s.len(),
    decreases s.len(),
{
    broadcast use group_to_multiset_ensures;

    if s.len() == 0 {
    } else {
        lemma_sort_desc_multiset(s.drop_last());
        lemma_insert_desc_multiset(sort_desc(s.drop_last()), s.last());
        lemma_insert_desc_len(sort_desc(s.drop_last()), s.last());
        assert(s =~= s.drop_last().push(s.last()));
        assert(s.drop_last().push(s.last()).to_multiset() =~= s.drop_last().to_multiset().insert(
            s.last(),
        ));
    }
}

/// What the greedy pass scans is in descending duration order: a strictly
/// shorter talk is never considered before a strictly longer one.
pub proof fn lemma_sort_desc_sorted(s: Seq<TalkView>)
    ensures
        sorted_desc(sort_desc(s)),
    decreases s.len(),
{
    if s.len() > 0 {
        lemma_sort_desc_sorted(s.drop_last());
        lemma_insert_desc_sorted(sort_desc(s.drop_last()), s.last());
    }
}

/// Inserts a talk into a vector kept sorted by descending duration, after
/// all talks at least as long: the step of a stable insertion sort.
fn insert_sorted(out: &mut Vec<Talk>, t: Talk)
    ensures
        talk_views(final(out)@) == insert_desc(talk_views(old(out)@), t@),
{
    let ghost s = talk_views(out@);
    let mut idx: usize = 0;
    while idx < out.len() && out[idx].duration >= t.duration
        invariant
            0 <= idx <= out.len(),
            s == talk_views(out@),
            forall|k: int| 0 <= k < idx ==> (#[trigger] s[k]).duration >= t@.duration,
        decreases out.len() - idx,
    {
        idx = idx + 1;
    }
    proof {
        lemma_insert_desc_at(s, t@, idx as int);
    }
    out.insert(idx, t);
    proof {
        assert(talk_views(final(out)@) =~= s.insert(idx as int, t@));
    }
}

/// The empty sequence holds nothing.
proof fn lemma_empty_to_multiset()
    ensures
        Seq::<TalkView>::empty().to_multiset() == Multiset::<TalkView>::empty(),
{
    broadcast use group_to_multiset_ensures;
    broadcast use vstd::multiset::group_multiset_axioms;

    assert(Seq::<TalkView>::empty().to_multiset() =~= Multiset::<TalkView>::empty());
}

/// One pass of the scheduling loop: every pending talk, in order, is offered
/// once to the track; the result is the grown track and the talks that were
/// not placed, in their original relative order.
pub open spec fn spec_pass(tr: TrackView, pending: Seq<TalkView>) -> (TrackView, Seq<TalkView>)
    decreases pending.len(),
{
    if pending.len() == 0 {
        (tr, Seq::<TalkView>::empty())
    } else {
        let step = spec_track_add(tr, pending[0]);
        let rec = spec_pass(step.0, pending.drop_first());
        if step.1 {
            rec
        } else {
            (rec.0, seq![pending[0]] + rec.1)
        }
    }
}

proof fn lemma_pass_len(tr: TrackView, pending: Seq<TalkView>)
    ensures
        spec_pass(tr, pending).1.len() <= pending.len(),
    decreases pending.len(),
{
    if pending.len() > 0 {
        lemma_pass_len(spec_track_add(tr, pending[0]).0, pending.drop_first());
    }
}

/// Offering a talk to a track keeps the track well formed, places the talk
/// iff it fits, and adds exactly that talk when it does.
proof fn lemma_track_add_props(tr: TrackView, t: TalkView)
    requires
        tr.wf(),
        0 <= t.duration <= u32::MAX,
    ensures
        spec_track_add(tr, t).0.wf(),
        spec_track_add(tr, t).1 == tr.spec_fits(t),
        spec_track_add(tr, t).1 ==> spec_track_add(tr, t).0.all_talks().to_multiset()
            == tr.all_talks().to_multiset().insert(t),
        !spec_track_add(tr, t).1 ==> spec_track_add(tr, t).0 == tr,
{
    broadcast use group_to_multiset_ensures;
    broadcast use vstd::multiset::group_multiset_axioms;

    let m = tr.morning.talks;
    let a = tr.afternoon.talks;
    if tr.morning.spec_fits(t) {
        crate::session::lemma_sum_push(m, t);
        vstd::seq_lib::lemma_multiset_commutative(m.push(t), a);
        vstd::seq_lib::lemma_multiset_commutative(m, a);
        assert(m.push(t).to_multiset().add(a.to_multiset()) =~= m.to_multiset().add(
            a.to_multiset(),
        ).insert(t));
    } else if tr.afternoon.spec_fits(t) {
        crate::session::lemma_sum_push(a, t);
        vstd::seq_lib::lemma_multiset_commutative(m, a.push(t));
        vstd::seq_lib::lemma_multiset_commutative(m, a);
        assert(m.to_multiset().add(a.push(t).to_multiset()) =~= m.to_multiset().add(
            a.to_multiset(),
        ).insert(t));
    }
}

/// A talk longer than the longest window never fits, whatever the track
/// already holds, and leaves the track unchanged.
proof fn lemma_track_add_big(tr: TrackView, t: TalkView)
    requires
        tr.wf(),
        t.duration > MAX_SESSION_MINUTES,
    ensures
        spec_track_add(tr, t) == (tr, false),
        !tr.spec_fits(t),
{
    crate::session::lemma_sum_take_le(tr.morning.talks, 0);
    crate::session::lemma_sum_take_le(tr.afternoon.talks, 0);
}

/// A pass keeps the track well formed and conserves talks: what the track
/// gained and what is still pending together are exactly what was pending.
proof fn lemma_pass_props(tr: TrackView, pending: Seq<TalkView>)
    requires
        tr.wf(),
        valid_talk_seq(pending),
    ensures
        spec_pass(tr, pending).0.wf(),
        valid_talk_seq(spec_pass(tr, pending).1),
        spec_pass(tr, pending).0.all_talks().to_multiset().add(
            spec_pass(tr, pending).1.to_multiset(),
        ) == tr.all_talks().to_multiset().add(pending.to_multiset()),
        forall|x: TalkView|
            spec_pass(tr, pending).1.contains(x) ==> pending.contains(x),
    decreases pending.len(),
{
    broadcast use group_to_multiset_ensures;
    broadcast use vstd::multiset::group_multiset_axioms;

    if pending.len() == 0 {
        lemma_empty_to_multiset();
    } else {
        let p0 = pending[0];
        let step = spec_track_add(tr, p0);
        lemma_track_add_props(tr, p0);
        assert(valid_talk_seq(pending.drop_first()));
        lemma_pass_props(step.0, pending.drop_first());
        let rec = spec_pass(step.0, pending.drop_first());
        assert(pending =~= pending.drop_first().insert(0, p0));
        lemma_to_multiset_insert0(pending.drop_first(), p0);
        assert forall|x: TalkView| pending.drop_first().contains(x) implies pending.contains(
            x,
        ) by {
            let k = choose|k: int|
                0 <= k < pending.drop_first().len() && pending.drop_first()[k] == x;
            assert(pending[k + 1] == x);
        }
        if step.1 {
            assert(rec.0.all_talks().to_multiset().add(rec.1.to_multiset()) =~= tr.all_talks()
                .to_multiset()
                .add(pending.to_multiset()));
        } else {
            lemma_to_multiset_insert0(rec.1, p0);
            assert(seq![p0] + rec.1 =~= rec.1.insert(0, p0));
            assert(valid_talk_seq(seq![p0] + rec.1));
            assert(rec.0.all_talks().to_multiset().add(rec.1.to_multiset().insert(p0))
                =~= rec.0.all_talks().to_multiset().add(rec.1.to_multiset()).insert(p0));
            assert(tr.all_talks().to_multiset().add(pending.drop_first().to_multiset().insert(p0))
                =~= tr.all_talks().to_multiset().add(
                pending.drop_first().to_multiset(),
            ).insert(p0));
            assert(rec.0.all_talks().to_multiset().add((seq![p0] + rec.1).to_multiset())
                =~= tr.all_talks().to_multiset().add(pending.to_multiset()));
            assert forall|x: TalkView| (seq![p0] + rec.1).contains(x) implies pending.contains(
                x,
            ) by {
                let k = choose|k: int| 0 <= k < (seq![p0] + rec.1).len() && (seq![p0] + rec.1)[k]
                    == x;
                if k == 0 {
                    assert(pending[0] == x);
                } else {
                    assert(rec.1[k - 1] == x);
                }
            }
        }
    }
}

/// What a pass leaves pending is some of what was pending, whatever the
/// track held.
proof fn lemma_pass_subset(tr: TrackView, pending: Seq<TalkView>)
    ensures
        forall|x: TalkView| spec_pass(tr, pending).1.contains(x) ==> pending.contains(x),
    decreases pending.len(),
{
    if pending.len() > 0 {
        let p0 = pending[0];
        let step = spec_track_add(tr, p0);
        let rec = spec_pass(step.0, pending.drop_first());
        lemma_pass_subset(step.0, pending.drop_first());
        assert forall|x: TalkView| spec_pass(tr, pending).1.contains(x) implies pending.contains(
            x,
        ) by {
            if rec.1.contains(x) {
                assert(pending.drop_first().contains(x));
                let k = choose|k: int|
                    0 <= k < pending.drop_first().len() && pending.drop_first()[k] == x;
                assert(pending.drop_first()[k] == x);
                assert(pending[k + 1] == x);
            } else {
                assert(pending[0] == x);
            }
        }
    }
}

/// Talks are offered to each track longest first: a pass scans its pending
/// pool in order, and what it leaves pending is still in descending duration
/// order — so every pass of the scheduling loop, not only the first, is a
/// longest-first scan.
pub proof fn lemma_pass_keeps_order(tr: TrackView, pending: Seq<TalkView>)
    requires
        sorted_desc(pending),
    ensures
        sorted_desc(spec_pass(tr, pending).1),
    decreases pending.len(),
{
    if pending.len() > 0 {
        let p0 = pending[0];
        let step = spec_track_add(tr, p0);
        let rec = spec_pass(step.0, pending.drop_first());
        assert(sorted_desc(pending.drop_first()));
        lemma_pass_keeps_order(step.0, pending.drop_first());
        if !step.1 {
            lemma_pass_subset(step.0, pending.drop_first());
            let r = seq![p0] + rec.1;
            assert forall|i: int, j: int| 0 <= i <= j < r.len() implies r[i].duration
                >= r[j].duration by {
                if i == 0 && j > 0 {
                    let x = rec.1[j - 1];
                    assert(rec.1.contains(x));
                    assert(pending.drop_first().contains(x));
                    let k = choose|k: int|
                        0 <= k < pending.drop_first().len() && pending.drop_first()[k] == x;
                    assert(pending[k + 1] == x);
                    assert(p0.duration >= pending[k + 1].duration);
                }
            }
        }
    }
}

/// A talk longer than every window survives every pass.
proof fn lemma_pass_keeps_big(tr: TrackView, pending: Seq<TalkView>, j: int)
    requires
        tr.wf(),
        valid_talk_seq(pending),
        0 <= j < pending.len(),
        pending[j].duration > MAX_SESSION_MINUTES,
    ensures
        spec_pass(tr, pending).1.contains(pending[j]),
    decreases pending.len(),
{
    let p0 = pending[0];
    let step = spec_track_add(tr, p0);
    lemma_track_add_props(tr, p0);
    let rec = spec_pass(step.0, pending.drop_first());
    if j == 0 {
        lemma_track_add_big(tr, p0);
        assert((seq![p0] + rec.1)[0] == p0);
    } else {
        lemma_pass_keeps_big(step.0, pending.drop_first(), j - 1);
        let k = choose|k: int| 0 <= k < rec.1.len() && rec.1[k] == pending.drop_first()[j - 1];
        if step.1 {
            assert(spec_pass(tr, pending).1[k] == pending[j]);
        } else {
            assert((seq![p0] + rec.1)[k + 1] == pending[j]);
        }
    }
}

/// A pass from a fresh track that places nothing means the first pending
/// talk — and in fact every pending talk — is longer than every window.
proof fn lemma_pass_no_progress(pending: Seq<TalkView>)
    requires
        valid_talk_seq(pending),
        pending.len() > 0,
        spec_pass(empty_track_view(), pending).1.len() == pending.len(),
    ensures
        pending[0].duration > MAX_SESSION_MINUTES,
        spec_pass(empty_track_view(), pending).1[0] == pending[0],
{
    let tr = empty_track_view();
    assert(tr.wf()) by {
        assert(crate::session::sum_durations(Seq::<TalkView>::empty()) == 0);
    }
    let p0 = pending[0];
    let step = spec_track_add(tr, p0);
    if step.1 {
        lemma_pass_len(step.0, pending.drop_first());
        assert(false);
    }
    assert(crate::session::sum_durations(tr.morning.talks) == 0);
    assert(crate::session::sum_durations(tr.afternoon.talks) == 0);
}

/// The passes of the scheduling loop, starting from the given pending pool:
/// each pass fills one fresh track with whatever fits; a pass that places
/// nothing stops everything and names the first talk still pending.
pub open spec fn spec_organize_rec(pending: Seq<TalkView>) -> Result<Seq<TrackView>, TalkView>
    decreases pending.len(),
    via spec_organize_rec_decreases
{
    if pending.len() == 0 {
        Ok(Seq::<TrackView>::empty())
    } else {
        let pass = spec_pass(empty_track_view(), pending);
        if pass.1.len() == pending.len() {
            Err(pending[0])
        } else {
            match spec_organize_rec(pass.1) {
                Ok(ts) => Ok(seq![pass.0] + ts),
                Err(t) => Err(t),
            }
        }
    }
}

#[via_fn]
proof fn spec_organize_rec_decreases(pending: Seq<TalkView>) {
    if pending.len() > 0 {
        lemma_pass_len(empty_track_view(), pending);
    }
}

/// The whole schedule, as a mathematical function of the input talks: sort
/// by duration, longest first, then run the passes.
pub open spec fn spec_organize(input: Seq<TalkView>) -> Result<Seq<TrackView>, TalkView> {
    spec_organize_rec(sort_desc(input))
}

/// Every talk of every session of every produced track, morning before
/// afternoon, track by track.
pub open spec fn all_scheduled_talks(ts: Seq<TrackView>) -> Seq<TalkView>
    decreases ts.len(),
{
    if ts.len() == 0 {
        Seq::<TalkView>::empty()
    } else {
        ts[0].all_talks() + all_scheduled_talks(ts.drop_first())
    }
}

/// The passes conserve the talks, keep every track well formed, and fail
/// exactly when some pending talk is longer than every window.
proof fn lemma_rec_props(pending: Seq<TalkView>)
    requires
        valid_talk_seq(pending),
    ensures
        (spec_organize_rec(pending) is Err) <==> exists|j: int|
            0 <= j < pending.len() && (#[trigger] pending[j]).duration > MAX_SESSION_MINUTES,
        spec_organize_rec(pending) matches Err(t) ==> t.duration > MAX_SESSION_MINUTES
            && pending.contains(t),
        spec_organize_rec(pending) matches Ok(ts) ==> {
            &&& all_scheduled_talks(ts).to_multiset() == pending.to_multiset()
            &&& forall|k: int| 0 <= k < ts.len() ==> (#[trigger] ts[k]).wf()
        },
    decreases pending.len(),
{
    broadcast use group_to_multiset_ensures;
    broadcast use vstd::multiset::group_multiset_axioms;

    let e = empty_track_view();
    assert(e.wf() && e.all_talks() =~= Seq::<TalkView>::empty()) by {
        assert(crate::session::sum_durations(Seq::<TalkView>::empty()) == 0);
    }
    lemma_empty_to_multiset();
    if pending.len() == 0 {
        assert(all_scheduled_talks(Seq::<TrackView>::empty()).to_multiset()
            =~= pending.to_multiset());
    } else {
        let pass = spec_pass(e, pending);
        lemma_pass_props(e, pending);
        lemma_pass_len(e, pending);
        if pass.1.len() == pending.len() {
            lemma_pass_no_progress(pending);
            assert(pending.contains(pending[0]));
        } else {
            lemma_rec_props(pass.1);
            // a talk too long for every window survives the pass, so the
            // recursion errs on it too
            assert forall|j: int|
                0 <= j < pending.len() && (#[trigger] pending[j]).duration > MAX_SESSION_MINUTES
                implies spec_organize_rec(pass.1) is Err by {
                lemma_pass_keeps_big(e, pending, j);
                let k = choose|k: int| 0 <= k < pass.1.len() && pass.1[k] == pending[j];
                assert(pass.1[k].duration > MAX_SESSION_MINUTES);
            }
            match spec_organize_rec(pass.1) {
                Ok(ts) => {
                    let full = seq![pass.0] + ts;
                    assert(full.drop_first() =~= ts);
                    assert(all_scheduled_talks(full) == pass.0.all_talks()
                        + all_scheduled_talks(ts));
                    vstd::seq_lib::lemma_multiset_commutative(
                        pass.0.all_talks(),
                        all_scheduled_talks(ts),
                    );
                    assert(all_scheduled_talks(full).to_multiset() =~= pending.to_multiset());
                    assert(forall|k: int| 0 <= k < full.len() ==> (#[trigger] full[k]).wf());
                },
                Err(t) => {
                    assert(pending.contains(t)) by {
                        assert(pass.1.contains(t));
                    }
                    // the talk the recursion names indexes into pending
                    let j = choose|j: int| 0 <= j < pending.len() && pending[j] == t;
                    assert(pending[j].duration > MAX_SESSION_MINUTES);
                },
            }
        }
    }
}

/// Sorts the talks by duration, longest first; talks of equal duration keep
/// their relative input order (the sort is stable).
pub fn sort_talks_desc(talks: Vec<Talk>) -> (r: Vec<Talk>)
    ensures
        talk_views(r@) == sort_desc(talk_views(talks@)),
{
    let ghost orig = talks@;
    let mut rest = talks;
    let mut out: Vec<Talk> = Vec::new();
    let ghost mut i: int = 0;
    proof {
        assert(talk_views(out@) =~= Seq::<TalkView>::empty());
        assert(talk_views(orig.take(0)) =~= Seq::<TalkView>::empty());
    }
    while rest.len() > 0
        invariant
            0 <= i <= orig.len(),
            rest@ == orig.skip(i),
            talk_views(out@) == sort_desc(talk_views(orig.take(i))),
        decreases rest@.len(),
    {
        let t = rest.remove(0);
        proof {
            assert(orig.skip(i).remove(0) =~= orig.skip(i + 1));
            assert(t == orig[i]);
            let p = talk_views(orig.take(i + 1));
            assert(p.drop_last() =~= talk_views(orig.take(i)));
            assert(p.last() == orig[i]@);
            assert(sort_desc(p) == insert_desc(sort_desc(talk_views(orig.take(i))), orig[i]@));
        }
        insert_sorted(&mut out, t);
        proof {
            i = i + 1;
        }
    }
    proof {
        assert(orig.take(i) =~= orig);
    }
    out
}

/// Scheduling is deterministic: the schedule is a mathematical function of
/// the input talks alone — `organize` ties its result to [`spec_organize`],
/// so two runs on equal inputs return equal track sequences and equal talk
/// assignments.
pub proof fn lemma_organize_deterministic(
    a: Seq<TalkView>,
    b: Seq<TalkView>,
    ra: Result<Seq<TrackView>, TalkView>,
    rb: Result<Seq<TrackView>, TalkView>,
)
    requires
        a == b,
        ra == spec_organize(a),
        rb == spec_organize(b),
    ensures
        ra == rb,
{
}

/// Greedily packs the talks into tracks, longest talk first, morning session
/// first, opening a new track after each full pass over what is pending.
///
/// Succeeds exactly when every talk fits some session window at all, and the
/// produced tracks then hold exactly the input talks (as a multiset), every
/// session within its capacity. A talk longer than the longest window can
/// never be placed: rather than loop forever, scheduling stops and names
/// such a talk.
#[verifier::loop_isolation(false)]
pub fn organize(talks: Vec<Talk>) -> (r: Result<Vec<Track>, ScheduleError>)
    ensures
        r matches Ok(tracks) ==> {
            &&& spec_organize(talk_views(talks@)) == Ok::<Seq<TrackView>, TalkView>(
                track_views(tracks@),
            )
            &&& forall|k: int|
                0 <= k < tracks@.len() ==> (#[trigger] track_views(tracks@)[k]).wf()
            &&& all_scheduled_talks(track_views(tracks@)).to_multiset() == talk_views(
                talks@,
            ).to_multiset()
        },
        r matches Err(e) ==> (e matches ScheduleError::UnplaceableTalk(t)
            && spec_organize(talk_views(talks@)) == Err::<Seq<TrackView>, TalkView>(t@)
            && t@.duration > MAX_SESSION_MINUTES && talk_views(talks@).contains(t@)),
        (r is Err) <==> exists|k: int|
            0 <= k < talks@.len() && (#[trigger] talk_views(talks@)[k]).duration
                > MAX_SESSION_MINUTES,
{
    broadcast use group_to_multiset_ensures;

    let ghost input_views = talk_views(talks@);
    proof {
        crate::talk::lemma_talk_views_valid(talks@);
        lemma_sort_desc_multiset(input_views);
    }
    let mut pending = sort_talks_desc(talks);
    let ghost sorted_views = sort_desc(input_views);
    let mut tracks: Vec<Track> = Vec::new();
    proof {
        assert(track_views(tracks@) =~= Seq::<TrackView>::empty());
    }
    while pending.len() > 0
        invariant
            sorted_views == sort_desc(input_views),
            sorted_views.to_multiset() == input_views.to_multiset(),
            valid_talk_seq(sorted_views),
            (match spec_organize_rec(talk_views(pending@)) {
                Ok(ts) => spec_organize_rec(sorted_views) == Ok::<Seq<TrackView>, TalkView>(
                    track_views(tracks@) + ts,
                ),
                Err(t) => spec_organize_rec(sorted_views) == Err::<Seq<TrackView>, TalkView>(t),
            }),
        decreases pending@.len(),
    {
        let ghost p0v = talk_views(pending@);
        proof {
            crate::talk::lemma_talk_views_valid(pending@);
            assert(empty_track_view().wf()) by {
                assert(crate::session::sum_durations(Seq::<TalkView>::empty()) == 0);
            }
            lemma_pass_props(empty_track_view(), p0v);
        }
        let ghost target = spec_pass(empty_track_view(), p0v);
        let before = pending.len();
        let mut track = Track::new();
        let mut i: usize = 0;
        proof {
            assert(talk_views(pending@.skip(0)) =~= p0v);
            assert(talk_views(pending@.take(0)) =~= Seq::<TalkView>::empty());
            assert(Seq::<TalkView>::empty() + target.1 =~= target.1);
        }
        while i < pending.len()
            invariant
                0 <= i <= pending.len(),
                pending@.len() <= p0v.len(),
                p0v.len() == before,
                track@.wf(),
                target == spec_pass(empty_track_view(), p0v),
                spec_pass(track@, talk_views(pending@.skip(i as int))).0 == target.0,
                talk_views(pending@.take(i as int)) + spec_pass(
                    track@,
                    talk_views(pending@.skip(i as int)),
                ).1 == target.1,
            decreases pending@.len() - i,
        {
            let ghost pend_old = pending@;
            let ghost suffix = talk_views(pend_old.skip(i as int));
            proof {
                assert(suffix[0] == pend_old[i as int]@);
                assert(suffix.drop_first() =~= talk_views(pend_old.skip(i as int + 1)));
            }
            let can_place = track.fits(&pending[i]);
            if can_place {
                let t = pending.remove(i);
                let placed = track.add(t);
                proof {
                    assert(placed);
                    assert(pending@ =~= pend_old.remove(i as int));
                    assert(pending@.skip(i as int) =~= pend_old.skip(i as int + 1));
                    assert(pending@.take(i as int) =~= pend_old.take(i as int));
                }
            } else {
                proof {
                    assert(talk_views(pend_old.take(i as int + 1)) =~= talk_views(
                        pend_old.take(i as int),
                    ) + seq![pend_old[i as int]@]);
                    assert((talk_views(pend_old.take(i as int)) + seq![pend_old[i as int]@])
                        + spec_pass(track@, suffix.drop_first()).1 =~= talk_views(
                        pend_old.take(i as int),
                    ) + (seq![pend_old[i as int]@] + spec_pass(track@, suffix.drop_first()).1));
                }
                i = i + 1;
            }
        }
        proof {
            assert(talk_views(pending@.skip(i as int)) =~= Seq::<TalkView>::empty());
            assert(spec_pass(track@, Seq::<TalkView>::empty()).0 == track@);
            assert(talk_views(pending@.take(i as int)) =~= talk_views(pending@));
            assert(talk_views(pending@) + Seq::<TalkView>::empty() =~= talk_views(pending@));
            assert(track@ == target.0);
            assert(talk_views(pending@) == target.1);
        }
        if pending.len() == before {
            proof {
                lemma_pass_no_progress(p0v);
                assert(spec_organize_rec(p0v) == Err::<Seq<TrackView>, TalkView>(p0v[0]));
            }
            let t = pending.remove(0);
            proof {
                assert(t@ == target.1[0]);
                assert(t@ == p0v[0]);
                assert(spec_organize_rec(sorted_views) == Err::<Seq<TrackView>, TalkView>(t@));
                assert(spec_organize(input_views) == Err::<Seq<TrackView>, TalkView>(t@));
                lemma_rec_props(sorted_views);
                assert(sorted_views.contains(t@));
                vstd::seq_lib::to_multiset_contains(sorted_views, t@);
                vstd::seq_lib::to_multiset_contains(input_views, t@);
                assert(input_views.contains(t@));
                let k = choose|k: int| 0 <= k < input_views.len() && input_views[k] == t@;
                assert(input_views[k] == t@);
                assert(t@.duration > MAX_SESSION_MINUTES);
                assert(input_views.len() == talks@.len());
                assert(0 <= k < talks@.len());
                assert(talk_views(talks@)[k].duration > MAX_SESSION_MINUTES);
            }
            return Err(ScheduleError::UnplaceableTalk(t));
        }
        proof {
            assert(spec_organize_rec(p0v) == (match spec_organize_rec(talk_views(pending@)) {
                Ok(ts) => Ok::<Seq<TrackView>, TalkView>(seq![target.0] + ts),
                Err(t) => Err::<Seq<TrackView>, TalkView>(t),
            }));
        }
        let ghost tracks_old = tracks@;
        tracks.push(track);
        proof {
            assert(track_views(tracks@) =~= track_views(tracks_old).push(target.0));
            assert forall|ts: Seq<TrackView>| true implies track_views(tracks_old) + (seq![
                target.0,
            ] + ts) =~= track_views(tracks@) + ts by {}
        }
    }
    proof {
        assert(talk_views(pending@) =~= Seq::<TalkView>::empty());
        assert(spec_organize_rec(talk_views(pending@)) == Ok::<Seq<TrackView>, TalkView>(
            Seq::<TrackView>::empty(),
        ));
        assert(track_views(tracks@) + Seq::<TrackView>::empty() =~= track_views(tracks@));
        lemma_rec_props(sorted_views);
        // move the no-oversized-talk fact between the input and its sorted
        // permutation through the shared multiset
        assert forall|k: int|
            0 <= k < input_views.len() implies (#[trigger] input_views[k]).duration
            <= MAX_SESSION_MINUTES by {
            assert(input_views.contains(input_views[k]));
            assert(sorted_views.to_multiset().count(input_views[k]) > 0);
            assert(sorted_views.contains(input_views[k]));
            let j = choose|j: int| 0 <= j < sorted_views.len() && sorted_views[j] == input_views[k];
            assert(sorted_views[j].duration <= MAX_SESSION_MINUTES);
        }
    }
    Ok(tracks)
}

} // verus!
