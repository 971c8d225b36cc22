use vstd::prelude::*;

verus! {

/// The outcome of a match: whether it succeeded and the `(start, end)`
/// span of each group.
pub struct MatchResult {
    is_match: bool,
    captured: Vec<(usize, usize)>,
}

impl MatchResult {
    /// Whether the match succeeded.
    pub closed spec fn matched(self) -> bool {
        self.is_match
    }

    /// The spans of the groups, group 1 first.
    pub closed spec fn spans(self) -> Seq<(usize, usize)> {
        self.captured@
    }

    pub fn new(is_match: bool, captured: Vec<(usize, usize)>) -> (r: Self)
        ensures
            r.matched() == is_match,
            r.spans() == captured@,
    {
        MatchResult { is_match, captured }
    }

    pub fn is_match(&self) -> (r: bool)
        ensures
            r == self.matched(),
    {
        self.is_match
    }

    pub fn captured(&self) -> (r: &Vec<(usize, usize)>)
        ensures
            r@ == self.spans(),
    {
        &self.captured
    }
}

} // verus!
