//! Precedence pattern: "Q must be preceded by P".
//!
//! Every occurrence of `follower` within scope must have a `predecessor`
//! at some earlier position that is still within scope. This is the
//! temporal mirror of the response pattern.
use vstd::prelude::*;

use crate::scope::{region, Scope, ScopeModel};
use crate::trace::{holds, occurs_in, step_holds, TraceModel};
use crate::Trace;

verus! {

/// "Every occurrence of `follower` must be preceded by `predecessor`."
#[derive(Debug, Clone, PartialEq, Eq, Hash)]
pub struct PrecedencePattern {
    /// Proposition that must appear before the follower.
    pub predecessor: String,
    /// Proposition whose occurrences require a prior predecessor.
    pub follower: String,
    /// Scope restricting the checked region.
    pub scope: Scope,
}

/// Every position of the region where `follower` holds has an earlier
/// position of the region where `predecessor` holds; a region that cannot
/// be established is vacuously satisfied.
pub open spec fn precedence_holds(
    t: TraceModel,
    predecessor: Seq<char>,
    follower: Seq<char>,
    reg: Option<(int, int)>,
) -> bool {
    match reg {
        None => true,
        Some((s, e)) => forall|i: int|
            s <= i < e && #[trigger] holds(t, i, follower) ==> occurs_in(t, predecessor, s, i),
    }
}

impl PrecedencePattern {
    /// The pattern holds of the trace `t`.
    pub open spec fn satisfied_by(&self, t: TraceModel) -> bool {
        precedence_holds(t, self.predecessor@, self.follower@, region(self.scope@, t))
    }

    /// Create a globally-scoped precedence pattern.
    pub fn new(predecessor: &str, follower: &str) -> (r: Self)
        ensures
            r.predecessor@ == predecessor@,
            r.follower@ == follower@,
            r.scope@ == ScopeModel::Global,
    {
        PrecedencePattern {
            predecessor: predecessor.to_owned(),
            follower: follower.to_owned(),
            scope: Scope::Global,
        }
    }

    /// Attach a custom scope.
    pub fn with_scope(self, scope: Scope) -> (r: Self)
        ensures
            r.predecessor == self.predecessor,
            r.follower == self.follower,
            r.scope == scope,
    {
        let mut r = self;
        r.scope = scope;
        r
    }

    /// Check whether `trace` satisfies this precedence pattern.
    ///
    /// For every position in scope where `follower` holds, there must exist
    /// an earlier position (still in scope) where `predecessor` holds.
    pub fn check(&self, trace: &Trace) -> (b: bool)
        ensures
            b == self.satisfied_by(trace.deep_view()),
    {
        let ghost t = trace.deep_view();
        let ghost pred = self.predecessor@;
        let ghost fol = self.follower@;
        let (start, end) = match self.scope.scope_range(trace) {
            Some(range) => range,
            None => return true,
        };
        let mut seen_pred = false;
        let mut i: usize = start;
        while i < end
            invariant
                start <= i <= end <= trace.len(),
                t == trace.deep_view(),
                pred == self.predecessor@,
                fol == self.follower@,
                region(self.scope@, t) == Some((start as int, end as int)),
                seen_pred == occurs_in(t, pred, start as int, i as int),
                forall|k: int|
                    start <= k < i && #[trigger] holds(t, k, fol) ==> occurs_in(
                        t,
                        pred,
                        start as int,
                        k,
                    ),
            decreases end - i,
        {
            if step_holds(&trace[i], &self.follower) && !seen_pred {
                assert(holds(t, i as int, fol));
                return false;
            }
            if step_holds(&trace[i], &self.predecessor) {
                assert(holds(t, i as int, pred));
                seen_pred = true;
            }
            proof {
                if !seen_pred {
                    assert forall|k: int| start <= k < i + 1 implies !#[trigger] holds(t, k, pred) by {
                        if k < i {
                            assert(!(start <= k < i && holds(t, k, pred)));
                        }
                    }
                }
            }
            i = i + 1;
        }
        true
    }
}

} // verus!
