//! What a detector reports: a scoring pattern and the positions that make it.
use vstd::prelude::*;

verus! {

/// The kind of a scoring pattern.
#[derive(PartialEq, Eq, Structural, Clone, Copy, Debug)]
pub enum Scoring {
    Pair,
    Run,
    Fifteen,
    ThirtyOne,
}

/// A scoring pattern found in a hand, with the positions of its cards in
/// ascending order.
#[derive(Debug)]
pub struct Finding {
    pub kind: Scoring,
    pub positions: Vec<usize>,
}

/// A finding as a value: its kind and its positions.
pub type FindingView = (Scoring, Seq<usize>);

/// The points a finding is worth: a run one per card, anything else two.
pub open spec fn points_of(v: FindingView) -> nat {
    match v.0 {
        Scoring::Run => v.1.len(),
        _ => 2,
    }
}

/// The findings of a list, as values.
pub open spec fn views(fs: Seq<Finding>) -> Seq<FindingView> {
    fs.map_values(|f: Finding| f@)
}

/// A finding names at most five positions.
pub open spec fn finding_bounded(v: FindingView) -> bool {
    v.1.len() <= 5
}

impl Finding {
    pub open spec fn view(&self) -> FindingView {
        (self.kind, self.positions@)
    }

    /// The points this finding is worth.
    pub fn points(&self) -> (r: u8)
        requires
            finding_bounded(self@),
        ensures
            r == points_of(self@),
    {
        match self.kind {
            Scoring::Run => self.positions.len() as u8,
            _ => 2,
        }
    }
}

} // verus!
