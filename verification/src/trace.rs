//! The mathematical model of a trace, and the scans over it that every
//! pattern is built from.
use vstd::prelude::*;

use crate::{Step, Trace};

verus! {

/// A trace as a mathematical value: step `i` is the sequence of the
/// propositions (as character sequences) that hold at time `i`.
pub type TraceModel = Seq<Seq<Seq<char>>>;

/// Proposition `p` holds at position `i` of `t`.
pub open spec fn holds(t: TraceModel, i: int, p: Seq<char>) -> bool {
    t[i].contains(p)
}

/// `p` holds at some position in `[lo, hi)`.
pub open spec fn occurs_in(t: TraceModel, p: Seq<char>, lo: int, hi: int) -> bool {
    exists|i: int| lo <= i < hi && #[trigger] holds(t, i, p)
}

/// The first position at or after `from` where `p` holds, if any.
pub open spec fn first_from(t: TraceModel, p: Seq<char>, from: int) -> Option<int>
    decreases t.len() - from,
{
    if from >= t.len() {
        None
    } else if holds(t, from, p) {
        Some(from)
    } else {
        first_from(t, p, from + 1)
    }
}

/// `first_from` finds the least position at or after `from` where `p`
/// holds, and `None` exactly when there is none up to the end of `t`.
pub proof fn lemma_first_from(t: TraceModel, p: Seq<char>, from: int)
    requires
        0 <= from,
    ensures
        match first_from(t, p, from) {
            Some(i) => from <= i < t.len() && holds(t, i, p) && !occurs_in(t, p, from, i),
            None => !occurs_in(t, p, from, t.len() as int),
        },
    decreases t.len() - from,
{
    if from < t.len() && !holds(t, from, p) {
        lemma_first_from(t, p, from + 1);
        match first_from(t, p, from + 1) {
            Some(i) => {
                assert forall|k: int| from <= k < i implies !#[trigger] holds(t, k, p) by {
                    if k > from {
                        assert(!(from + 1 <= k < i && holds(t, k, p)));
                    }
                }
            },
            None => {
                assert forall|k: int| from <= k < t.len() implies !#[trigger] holds(t, k, p) by {
                    if k > from {
                        assert(!(from + 1 <= k < t.len() && holds(t, k, p)));
                    }
                }
            },
        }
    }
}

/// Whether proposition `p` is listed in `step`.
pub fn step_holds(step: &Step, p: &String) -> (b: bool)
    ensures
        b == step.deep_view().contains(p@),
{
    let mut k: usize = 0;
    while k < step.len()
        invariant
            k <= step.len(),
            forall|j: int| 0 <= j < k ==> step@[j]@ != p@,
        decreases step.len() - k,
    {
        if step[k] == *p {
            assert(step.deep_view()[k as int] == p@);
            return true;
        }
        k = k + 1;
    }
    assert forall|j: int| 0 <= j < step.deep_view().len() implies step.deep_view()[j] != p@ by {
        assert(step.deep_view()[j] == step@[j]@);
    }
    false
}

/// Whether `p` holds somewhere in positions `[lo, hi)` of `trace`.
pub fn occurs_between(trace: &Trace, p: &String, lo: usize, hi: usize) -> (b: bool)
    requires
        lo <= hi <= trace.len(),
    ensures
        b == occurs_in(trace.deep_view(), p@, lo as int, hi as int),
{
    let ghost t = trace.deep_view();
    let mut i: usize = lo;
    while i < hi
        invariant
            lo <= i <= hi <= trace.len(),
            t == trace.deep_view(),
            !occurs_in(t, p@, lo as int, i as int),
        decreases hi - i,
    {
        if step_holds(&trace[i], p) {
            assert(holds(t, i as int, p@));
            return true;
        }
        assert forall|k: int| lo <= k < i + 1 implies !#[trigger] holds(t, k, p@) by {
            if k < i {
                assert(!(lo <= k < i && holds(t, k, p@)));
            }
        }
        i = i + 1;
    }
    false
}

} // verus!
