//! Existence pattern: "P must occur at least once".
//!
//! Optionally bounded: P must occur within `k` steps of the scope start.
use vstd::prelude::*;

use crate::scope::{region, Scope, ScopeModel};
use crate::trace::{occurs_between, occurs_in, TraceModel};
use crate::Trace;

verus! {

/// "P must occur at least once" (optionally within `bound` steps).
#[derive(Debug, Clone, PartialEq, Eq, Hash)]
pub struct ExistencePattern {
    /// Proposition that must appear.
    pub proposition: String,
    /// If `Some(k)`, the proposition must appear within `k` steps of the
    /// scope start.
    pub bound: Option<usize>,
    /// Scope restricting the checked region.
    pub scope: Scope,
}

/// The end of the part of region `[s, e)` that lies within `k` steps of
/// its start.
pub open spec fn bounded_end(s: int, e: int, k: int) -> int {
    if s + k < e {
        s + k
    } else {
        e
    }
}

/// `p` holds somewhere in the region (within the first `k` positions of
/// it when `bound` is `Some(k)`); a region that cannot be established
/// fails.
pub open spec fn existence_holds(
    t: TraceModel,
    p: Seq<char>,
    bound: Option<usize>,
    reg: Option<(int, int)>,
) -> bool {
    match reg {
        None => false,
        Some((s, e)) => match bound {
            None => occurs_in(t, p, s, e),
            Some(k) => occurs_in(t, p, s, bounded_end(s, e, k as int)),
        },
    }
}

impl ExistencePattern {
    /// The pattern holds of the trace `t`.
    pub open spec fn satisfied_by(&self, t: TraceModel) -> bool {
        existence_holds(t, self.proposition@, self.bound, region(self.scope@, t))
    }

    /// Unbounded existence: P must occur at least once.
    pub fn new(proposition: &str) -> (r: Self)
        ensures
            r.proposition@ == proposition@,
            r.bound == None::<usize>,
            r.scope@ == ScopeModel::Global,
    {
        ExistencePattern { proposition: proposition.to_owned(), bound: None, scope: Scope::Global }
    }

    /// Bounded existence: P must occur within `k` steps.
    pub fn within(proposition: &str, k: usize) -> (r: Self)
        ensures
            r.proposition@ == proposition@,
            r.bound == Some(k),
            r.scope@ == ScopeModel::Global,
    {
        ExistencePattern { proposition: proposition.to_owned(), bound: Some(k), scope: Scope::Global }
    }

    /// Attach a custom scope.
    pub fn with_scope(self, scope: Scope) -> (r: Self)
        ensures
            r.proposition == self.proposition,
            r.bound == self.bound,
            r.scope == scope,
    {
        let mut r = self;
        r.scope = scope;
        r
    }

    /// Check whether `trace` satisfies this existence pattern.
    pub fn check(&self, trace: &Trace) -> (b: bool)
        ensures
            b == self.satisfied_by(trace.deep_view()),
    {
        let (start, end) = match self.scope.scope_range(trace) {
            Some(range) => range,
            None => return false,
        };
        match self.bound {
            None => occurs_between(trace, &self.proposition, start, end),
            Some(k) => {
                let limit = if k < end - start {
                    start + k
                } else {
                    end
                };
                occurs_between(trace, &self.proposition, start, limit)
            },
        }
    }
}

} // verus!
