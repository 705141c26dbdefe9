//! Scorable groupings of digits and their weights.
use vstd::prelude::*;

verus! {

/// One scorable grouping found in a dealt sequence.
#[derive(Clone, Debug, PartialEq, Eq, Hash)]
pub enum Play {
    /// A run of consecutive ascending numbers, like a straight (e.g. 5-6-7).
    NumSequence(Vec<u32>),
    /// All occurrences of one repeated number (a pair, three of a kind, ...).
    NumMatch(Vec<u32>),
    /// The highest number not used in another grouping.
    HighNum(u32),
}

/// The mathematical content of a [`Play`].
pub enum PlayModel {
    Sequence(Seq<u32>),
    Match(Seq<u32>),
    HighNum(u32),
}

impl View for Play {
    type V = PlayModel;

    open spec fn view(&self) -> PlayModel {
        match self {
            Play::NumSequence(v) => PlayModel::Sequence(v@),
            Play::NumMatch(v) => PlayModel::Match(v@),
            Play::HighNum(n) => PlayModel::HighNum(*n),
        }
    }
}

/// Weight of one play: five points per number of a run, four per number of a
/// match, and the value itself for a high number.
pub open spec fn play_points(p: PlayModel) -> nat {
    match p {
        PlayModel::Sequence(g) => 5 * g.len(),
        PlayModel::Match(g) => 4 * g.len(),
        PlayModel::HighNum(n) => n as nat,
    }
}

/// Sum of the weights of a list of plays.
pub open spec fn points_sum(ps: Seq<PlayModel>) -> nat
    decreases ps.len(),
{
    if ps.len() == 0 {
        0
    } else {
        points_sum(ps.drop_last()) + play_points(ps.last())
    }
}

impl Play {
    /// The weight of this play.
    pub fn get_score(&self) -> (r: u128)
        ensures
            r == play_points(self@),
    {
        match self {
            Play::NumSequence(nums) => nums.len() as u128 * 5,
            Play::NumMatch(nums) => nums.len() as u128 * 4,
            Play::HighNum(num) => *num as u128,
        }
    }
}

} // verus!
