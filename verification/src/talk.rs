//! A talk: a description and a duration in whole minutes.

use vstd::prelude::*;

verus! {

/// Mathematical value of a [`Talk`]: the description as a character sequence
/// and the duration as an unbounded integer number of minutes.
pub ghost struct TalkView {
    pub description: Seq<char>,
    pub duration: int,
}

/// A talk of the conference: a description (its title) and a duration,
/// counted in whole minutes.
#[derive(Debug, PartialEq, Eq)]
pub struct Talk {
    pub description: String,
    pub duration: u32,
}

impl View for Talk {
    type V = TalkView;

    open spec fn view(&self) -> TalkView {
        TalkView { description: self.description@, duration: self.duration as int }
    }
}

impl Talk {
    pub fn new(description: String, duration: u32) -> (r: Talk)
        ensures
            r@ == (TalkView { description: description@, duration: duration as int }),
    {
        Talk { description, duration }
    }
}

/// The views of a sequence of talks.
pub open spec fn talk_views(ts: Seq<Talk>) -> Seq<TalkView> {
    ts.map_values(|t: Talk| t@)
}

/// Every duration in the sequence is a valid minute count: non-negative and
/// representable as a `u32`.
pub open spec fn valid_talk_seq(ts: Seq<TalkView>) -> bool {
    forall|i: int| 0 <= i < ts.len() ==> 0 <= (#[trigger] ts[i]).duration <= u32::MAX
}

/// The views of executable talks always form a valid sequence.
pub proof fn lemma_talk_views_valid(ts: Seq<Talk>)
    ensures
        valid_talk_seq(talk_views(ts)),
        talk_views(ts).len() == ts.len(),
{
}

} // verus!
