//! Scopes: the region of a trace over which a pattern is evaluated.
//!
//! | Scope        | Region                                                 |
//! |--------------|--------------------------------------------------------|
//! | Global       | the entire trace                                       |
//! | After R      | from the first R to the end of the trace               |
//! | Before S     | from the start up to (excluding) the first S           |
//! | Between R S  | from the first R up to (excluding) the first S after R |
use vstd::prelude::*;

use crate::trace::{first_from, holds, lemma_first_from, occurs_in, step_holds, TraceModel};
use crate::Trace;

verus! {

/// Restricts the region of a trace a pattern covers.
#[derive(Debug, Clone, Hash)]
pub enum Scope {
    /// Evaluate over the entire trace.
    Global,
    /// Evaluate from the first occurrence of `R` to the end of the trace.
    After(String),
    /// Evaluate from the start up to (but not including) the first `S`.
    Before(String),
    /// Evaluate from the first `R` up to (but not including) the first `S`
    /// that appears after `R`. If `S` never appears after `R`, the scope
    /// cannot be established.
    Between(String, String),
}

/// A scope as a mathematical value.
pub enum ScopeModel {
    Global,
    After(Seq<char>),
    Before(Seq<char>),
    Between(Seq<char>, Seq<char>),
}

impl View for Scope {
    type V = ScopeModel;

    open spec fn view(&self) -> ScopeModel {
        match self {
            Scope::Global => ScopeModel::Global,
            Scope::After(r) => ScopeModel::After(r@),
            Scope::Before(s) => ScopeModel::Before(s@),
            Scope::Between(r, s) => ScopeModel::Between(r@, s@),
        }
    }
}

/// The region `[start, end)` of `t` that `scope` covers, or `None` when
/// its boundary propositions do not occur.
pub open spec fn region(scope: ScopeModel, t: TraceModel) -> Option<(int, int)> {
    match scope {
        ScopeModel::Global => Some((0, t.len() as int)),
        ScopeModel::After(r) => match first_from(t, r, 0) {
            Some(i) => Some((i, t.len() as int)),
            None => None,
        },
        ScopeModel::Before(s) => match first_from(t, s, 0) {
            Some(k) => Some((0, k)),
            None => None,
        },
        ScopeModel::Between(r, s) => match first_from(t, r, 0) {
            Some(i) => match first_from(t, s, i + 1) {
                Some(k) => Some((i, k)),
                None => None,
            },
            None => None,
        },
    }
}

/// Position `i` lies in the region that `scope` covers in `t`.
pub open spec fn in_region(scope: ScopeModel, t: TraceModel, i: int) -> bool {
    match region(scope, t) {
        Some((s, e)) => s <= i < e,
        None => false,
    }
}

/// Every region that a scope establishes lies within the trace, and its
/// boundaries are the occurrences that the scope names: `After(R)` and
/// `Between(R, S)` start at the first `R`; `Before(S)` ends at the first
/// `S`, and `Between(R, S)` at the first `S` after that `R`.
pub proof fn lemma_region(scope: ScopeModel, t: TraceModel)
    ensures
        region(scope, t) matches Some((s, e)) ==> 0 <= s <= e <= t.len(),
        match scope {
            ScopeModel::Global => region(scope, t) == Some((0int, t.len() as int)),
            ScopeModel::After(r) => match region(scope, t) {
                Some((s, e)) => e == t.len() && holds(t, s, r) && !occurs_in(t, r, 0, s),
                None => !occurs_in(t, r, 0, t.len() as int),
            },
            ScopeModel::Before(q) => match region(scope, t) {
                Some((s, e)) => s == 0 && e < t.len() && holds(t, e, q) && !occurs_in(t, q, 0, e),
                None => !occurs_in(t, q, 0, t.len() as int),
            },
            ScopeModel::Between(r, q) => match region(scope, t) {
                Some((s, e)) => s < e < t.len() && holds(t, s, r) && !occurs_in(t, r, 0, s)
                    && holds(t, e, q) && !occurs_in(t, q, s + 1, e),
                None => !occurs_in(t, r, 0, t.len() as int) || (first_from(t, r, 0) matches Some(
                    i,
                ) && !occurs_in(t, q, i + 1, t.len() as int)),
            },
        },
{
    match scope {
        ScopeModel::Global => {},
        ScopeModel::After(r) => {
            lemma_first_from(t, r, 0);
        },
        ScopeModel::Before(q) => {
            lemma_first_from(t, q, 0);
        },
        ScopeModel::Between(r, q) => {
            lemma_first_from(t, r, 0);
            if let Some(i) = first_from(t, r, 0) {
                lemma_first_from(t, q, i + 1);
            }
        },
    }
}

/// The first position at or after `start` where `p` holds.
pub(crate) fn find_after(trace: &Trace, p: &String, start: usize) -> (r: Option<usize>)
    requires
        start <= trace.len(),
    ensures
        r == match first_from(trace.deep_view(), p@, start as int) {
            Some(i) => Some(i as usize),
            None => None::<usize>,
        },
{
    let ghost t = trace.deep_view();
    let mut i: usize = start;
    while i < trace.len()
        invariant
            start <= i <= trace.len(),
            t == trace.deep_view(),
            first_from(t, p@, start as int) == first_from(t, p@, i as int),
        decreases trace.len() - i,
    {
        if step_holds(&trace[i], p) {
            return Some(i);
        }
        i = i + 1;
    }
    None
}

/// The first position where `p` holds.
fn find_first(trace: &Trace, p: &String) -> (r: Option<usize>)
    ensures
        r == match first_from(trace.deep_view(), p@, 0) {
            Some(i) => Some(i as usize),
            None => None::<usize>,
        },
{
    find_after(trace, p, 0)
}

impl Scope {
    /// Returns the `(start, end)` indices of `trace` covered by this scope,
    /// or `None` if the scope cannot be established (e.g. `After(R)` but `R`
    /// never occurs).
    pub fn scope_range(&self, trace: &Trace) -> (r: Option<(usize, usize)>)
        ensures
            match r {
                Some((s, e)) => region(self@, trace.deep_view()) == Some((s as int, e as int)) && s
                    <= e <= trace.len(),
                None => region(self@, trace.deep_view()) is None,
            },
    {
        proof {
            lemma_region(self@, trace.deep_view());
        }
        match self {
            Scope::Global => Some((0, trace.len())),
            Scope::After(r) => {
                let idx = find_first(trace, r)?;
                Some((idx, trace.len()))
            },
            Scope::Before(s) => {
                let idx = find_first(trace, s)?;
                Some((0, idx))
            },
            Scope::Between(r, s) => {
                let r_idx = find_first(trace, r)?;
                proof {
                    lemma_first_from(trace.deep_view(), r@, 0);
                    assert(trace.deep_view().len() == trace.len());
                    assert(first_from(trace.deep_view(), r@, 0) == Some(r_idx as int));
                    assert(r_idx < trace.len());
                }
                let s_idx = find_after(trace, s, r_idx + 1)?;
                Some((r_idx, s_idx))
            },
        }
    }
}

impl PartialEq for Scope {
    fn eq(&self, other: &Self) -> (r: bool) {
        match (self, other) {
            (Scope::Global, Scope::Global) => true,
            (Scope::After(a), Scope::After(b)) => *a == *b,
            (Scope::Before(a), Scope::Before(b)) => *a == *b,
            (Scope::Between(a1, a2), Scope::Between(b1, b2)) => *a1 == *b1 && *a2 == *b2,
            _ => false,
        }
    }
}

impl vstd::std_specs::cmp::PartialEqSpecImpl for Scope {
    open spec fn obeys_eq_spec() -> bool {
        true
    }

    open spec fn eq_spec(&self, other: &Self) -> bool {
        self@ == other@
    }
}

impl Eq for Scope {

}

} // verus!
