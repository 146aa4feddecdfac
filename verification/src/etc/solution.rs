use vstd::prelude::*;

verus! {

/// The answer to one part of a puzzle.
#[derive(Debug, PartialEq, Eq)]
pub enum Solution {
    U64(u64),
    Usize(usize),
    Str(String),
    Nothing,
}

pub type SolutionPair = (Solution, Solution);

impl From<u64> for Solution {
    fn from(value: u64) -> (r: Self) {
        Solution::U64(value)
    }
}

impl vstd::std_specs::convert::FromSpecImpl<u64> for Solution {
    open spec fn obeys_from_spec() -> bool {
        true
    }

    open spec fn from_spec(value: u64) -> Self {
        Solution::U64(value)
    }
}

impl From<usize> for Solution {
    fn from(value: usize) -> (r: Self) {
        Solution::Usize(value)
    }
}

impl vstd::std_specs::convert::FromSpecImpl<usize> for Solution {
    open spec fn obeys_from_spec() -> bool {
        true
    }

    open spec fn from_spec(value: usize) -> Self {
        Solution::Usize(value)
    }
}

impl From<String> for Solution {
    fn from(value: String) -> (r: Self) {
        Solution::Str(value)
    }
}

impl vstd::std_specs::convert::FromSpecImpl<String> for Solution {
    open spec fn obeys_from_spec() -> bool {
        true
    }

    open spec fn from_spec(value: String) -> Self {
        Solution::Str(value)
    }
}

impl From<()> for Solution {
    fn from(value: ()) -> (r: Self) {
        Solution::Nothing
    }
}

impl vstd::std_specs::convert::FromSpecImpl<()> for Solution {
    open spec fn obeys_from_spec() -> bool {
        true
    }

    open spec fn from_spec(value: ()) -> Self {
        Solution::Nothing
    }
}

} // verus!
