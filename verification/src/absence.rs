//! Absence pattern: "P must never occur".
//!
//! Variants:
//! - Unconditional absence: P never appears in scope.
//! - Absence after Q: P must not appear after the first occurrence of Q.
use vstd::prelude::*;

use crate::scope::{find_after, region, Scope, ScopeModel};
use crate::trace::{first_from, holds, lemma_first_from, occurs_between, occurs_in, TraceModel};
use crate::Trace;

verus! {

/// "P must never occur" within the scope.
///
/// If `after` is `Some(Q)`, then P must not appear at any position
/// following the first occurrence of Q (within scope).
#[derive(Debug, Clone, PartialEq, Eq, Hash)]
pub struct AbsencePattern {
    /// Proposition that must not occur.
    pub proposition: String,
    /// If set, absence is only enforced after this proposition first appears.
    pub after: Option<String>,
    /// Scope restricting the checked region.
    pub scope: Scope,
}

/// `p` never holds in the region, or, when `after` is `Some(q)`, never at
/// a position of the region that follows a position of the region where
/// `q` holds; a region that cannot be established is vacuously satisfied.
pub open spec fn absence_holds(
    t: TraceModel,
    p: Seq<char>,
    after: Option<Seq<char>>,
    reg: Option<(int, int)>,
) -> bool {
    match reg {
        None => true,
        Some((s, e)) => match after {
            None => !occurs_in(t, p, s, e),
            Some(q) => never_after(t, p, q, s, e),
        },
    }
}

/// `p` holds at no position of `[s, e)` that follows a position of
/// `[s, e)` where `q` holds.
pub open spec fn never_after(t: TraceModel, p: Seq<char>, q: Seq<char>, s: int, e: int) -> bool {
    forall|j: int, i: int|
        #![trigger holds(t, j, q), holds(t, i, p)]
        s <= j < i < e && holds(t, j, q) ==> !holds(t, i, p)
}

/// The trigger of an absence pattern as a mathematical value.
pub open spec fn after_model(after: Option<String>) -> Option<Seq<char>> {
    match after {
        Some(q) => Some(q@),
        None => None,
    }
}

impl AbsencePattern {
    /// The pattern holds of the trace `t`.
    pub open spec fn satisfied_by(&self, t: TraceModel) -> bool {
        absence_holds(t, self.proposition@, after_model(self.after), region(self.scope@, t))
    }

    /// Unconditional absence: P must never occur.
    pub fn new(proposition: &str) -> (r: Self)
        ensures
            r.proposition@ == proposition@,
            r.after == None::<String>,
            r.scope@ == ScopeModel::Global,
    {
        AbsencePattern { proposition: proposition.to_owned(), after: None, scope: Scope::Global }
    }

    /// Absence after Q: P must not occur after Q first appears.
    pub fn after(proposition: &str, trigger: &str) -> (r: Self)
        ensures
            r.proposition@ == proposition@,
            after_model(r.after) == Some(trigger@),
            r.scope@ == ScopeModel::Global,
    {
        AbsencePattern {
            proposition: proposition.to_owned(),
            after: Some(trigger.to_owned()),
            scope: Scope::Global,
        }
    }

    /// Attach a custom scope.
    pub fn with_scope(self, scope: Scope) -> (r: Self)
        ensures
            r.proposition == self.proposition,
            r.after == self.after,
            r.scope == scope,
    {
        let mut r = self;
        r.scope = scope;
        r
    }

    /// Check whether `trace` satisfies this absence pattern.
    pub fn check(&self, trace: &Trace) -> (b: bool)
        ensures
            b == self.satisfied_by(trace.deep_view()),
    {
        let ghost t = trace.deep_view();
        let (start, end) = match self.scope.scope_range(trace) {
            Some(range) => range,
            None => return true,
        };
        match &self.after {
            None => !occurs_between(trace, &self.proposition, start, end),
            Some(trigger) => {
                let ghost q = trigger@;
                let ghost p = self.proposition@;
                proof {
                    lemma_first_from(t, q, start as int);
                }
                match find_after(trace, trigger, start) {
                    Some(idx) if idx < end => {
                        let r = !occurs_between(trace, &self.proposition, idx + 1, end);
                        proof {
                            assert(first_from(t, q, start as int) == Some(idx as int));
                            if r {
                                assert forall|j: int, i: int|
                                    start <= j < i < end && holds(t, j, q) implies !holds(
                                    t,
                                    i,
                                    p,
                                ) by {
                                    if j < idx {
                                        assert(start <= j < idx && holds(t, j, q));
                                    }
                                    assert(!(idx + 1 <= i < end && holds(t, i, p)));
                                }
                            } else {
                                // the first trigger, and a later occurrence of `p`
                                let i = choose|i: int| idx + 1 <= i < end && #[trigger] holds(t, i, p);
                                assert(holds(t, idx as int, q) && holds(t, i, p));
                            }
                        }
                        r
                    },
                    _ => {
                        proof {
                            assert forall|j: int, i: int|
                                start <= j < i < end && holds(t, j, q) implies !holds(t, i, p) by {
                                match first_from(t, q, start as int) {
                                    Some(k) => assert(!(start <= j < k && holds(t, j, q))),
                                    None => assert(!(start <= j < t.len() && holds(t, j, q))),
                                }
                            }
                        }
                        true
                    },
                }
            },
        }
    }
}

} // verus!
