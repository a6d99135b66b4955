//! Response pattern: "if P occurs then eventually Q".
//!
//! Every occurrence of a trigger `P` within scope must be followed (not
//! necessarily immediately) by a response `Q` at a later position that is
//! still within scope.
use vstd::prelude::*;

use crate::scope::{region, Scope, ScopeModel};
use crate::trace::{holds, occurs_between, occurs_in, step_holds, TraceModel};
use crate::Trace;

verus! {

/// "If `trigger` occurs then `response` must eventually occur."
///
/// Only the region of the trace chosen by [`Scope::scope_range`] is
/// considered.
#[derive(Debug, Clone, PartialEq, Eq, Hash)]
pub struct ResponsePattern {
    /// Proposition that triggers the obligation.
    pub trigger: String,
    /// Proposition that must eventually hold after each trigger.
    pub response: String,
    /// Scope restricting the checked region.
    pub scope: Scope,
}

/// Every position of the region where `trigger` holds is followed by a
/// later position of the region where `response` holds; a region that
/// cannot be established is vacuously satisfied.
pub open spec fn response_holds(
    t: TraceModel,
    trigger: Seq<char>,
    response: Seq<char>,
    reg: Option<(int, int)>,
) -> bool {
    match reg {
        None => true,
        Some((s, e)) => forall|i: int|
            s <= i < e && #[trigger] holds(t, i, trigger) ==> occurs_in(t, response, i + 1, e),
    }
}

impl ResponsePattern {
    /// The pattern holds of the trace `t`.
    pub open spec fn satisfied_by(&self, t: TraceModel) -> bool {
        response_holds(t, self.trigger@, self.response@, region(self.scope@, t))
    }

    /// Create a globally-scoped response pattern.
    pub fn new(trigger: &str, response: &str) -> (r: Self)
        ensures
            r.trigger@ == trigger@,
            r.response@ == response@,
            r.scope@ == ScopeModel::Global,
    {
        ResponsePattern { trigger: trigger.to_owned(), response: response.to_owned(), scope: Scope::Global }
    }

    /// Attach a custom scope.
    pub fn with_scope(self, scope: Scope) -> (r: Self)
        ensures
            r.trigger == self.trigger,
            r.response == self.response,
            r.scope == scope,
    {
        let mut r = self;
        r.scope = scope;
        r
    }

    /// Check whether `trace` satisfies this response pattern.
    ///
    /// For every position `i` in scope where `trigger` holds, there must
    /// exist a later position `j > i` (still in scope) where `response`
    /// holds.
    pub fn check(&self, trace: &Trace) -> (b: bool)
        ensures
            b == self.satisfied_by(trace.deep_view()),
    {
        let ghost t = trace.deep_view();
        let (start, end) = match self.scope.scope_range(trace) {
            Some(range) => range,
            None => return true,
        };
        let mut i: usize = start;
        while i < end
            invariant
                start <= i <= end <= trace.len(),
                t == trace.deep_view(),
                region(self.scope@, t) == Some((start as int, end as int)),
                forall|k: int|
                    start <= k < i && #[trigger] holds(t, k, self.trigger@) ==> occurs_in(
                        t,
                        self.response@,
                        k + 1,
                        end as int,
                    ),
            decreases end - i,
        {
            if step_holds(&trace[i], &self.trigger) {
                if !occurs_between(trace, &self.response, i + 1, end) {
                    assert(holds(t, i as int, self.trigger@));
                    return false;
                }
            }
            i = i + 1;
        }
        true
    }
}

} // verus!
