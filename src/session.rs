//! The rule that a host applies to solve requests: at most one solve runs;
//! a new request with other parameters cancels it, and a request identical
//! to the one running is turned away.

use vstd::prelude::*;
use crate::text::strings_view;

verus! {

/// A solve request: the board's sides and the most solutions wanted.
pub struct SolveRequest {
    pub sides: Vec<String>,
    pub max_solutions: u16,
}

/// What to do with a new request.
#[derive(Debug, PartialEq, Eq, Structural)]
pub enum Admission {
    /// Nothing runs: start it.
    Start,
    /// Another request runs: cancel it, then start this one.
    CancelCurrentThenStart,
    /// The same request runs already: turn this one away.
    RejectDuplicate,
}

/// Two requests ask for the same thing.
pub open spec fn same_request(a: &SolveRequest, b: &SolveRequest) -> bool {
    strings_view(a.sides@) == strings_view(b.sides@) && a.max_solutions == b.max_solutions
}

/// Whether two requests ask for the same thing.
pub fn is_same_request(a: &SolveRequest, b: &SolveRequest) -> (r: bool)
    ensures
        r == same_request(a, b),
{
    if a.max_solutions != b.max_solutions || a.sides.len() != b.sides.len() {
        assert(strings_view(a.sides@).len() == a.sides.len());
        assert(strings_view(b.sides@).len() == b.sides.len());
        return false;
    }
    let mut i: usize = 0;
    while i < a.sides.len()
        invariant
            a.sides.len() == b.sides.len(),
            i <= a.sides.len(),
            forall|j: int| 0 <= j < i ==> (#[trigger] a.sides@[j])@ == b.sides@[j]@,
        decreases a.sides.len() - i,
    {
        if a.sides[i] != b.sides[i] {
            assert(strings_view(a.sides@)[i as int] != strings_view(b.sides@)[i as int]);
            return false;
        }
        i += 1;
    }
    assert(strings_view(a.sides@) =~= strings_view(b.sides@));
    true
}

/// Decides what to do with `request` while `current` runs, if anything does.
pub fn decide_request(current: &Option<SolveRequest>, request: &SolveRequest) -> (r: Admission)
    ensures
        match current {
            None => r == Admission::Start,
            Some(c) => if same_request(c, request) {
                r == Admission::RejectDuplicate
            } else {
                r == Admission::CancelCurrentThenStart
            },
        },
{
    match current {
        None => Admission::Start,
        Some(c) => {
            if is_same_request(c, request) {
                Admission::RejectDuplicate
            } else {
                Admission::CancelCurrentThenStart
            }
        },
    }
}

} // verus!
