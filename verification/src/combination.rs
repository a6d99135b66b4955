//! Combination patterns: AND/OR composition, conflict detection, coverage.
//!
//! Combine multiple patterns into a composite that checks all (AND) or any
//! (OR). Also provides utilities for detecting contradictory patterns and
//! counting the trace positions that the patterns' scopes cover.
use vstd::prelude::*;

use crate::absence::AbsencePattern;
use crate::existence::ExistencePattern;
use crate::precedence::PrecedencePattern;
use crate::response::ResponsePattern;
use crate::scope::{in_region, Scope};
use crate::trace::TraceModel;
use crate::Trace;

verus! {

/// Operator for combining patterns.
#[derive(Debug, Clone, Copy, PartialEq, Eq, Structural, Hash)]
pub enum CombinationOp {
    /// All patterns must hold.
    And,
    /// At least one pattern must hold.
    Or,
}

/// A single pattern variant that can participate in combinations.
#[derive(Debug, Clone)]
pub enum Pattern {
    Response(ResponsePattern),
    Precedence(PrecedencePattern),
    Existence(ExistencePattern),
    Absence(AbsencePattern),
}

impl Pattern {
    /// The pattern holds of the trace `t`.
    pub open spec fn satisfied_by(&self, t: TraceModel) -> bool {
        match self {
            Pattern::Response(p) => p.satisfied_by(t),
            Pattern::Precedence(p) => p.satisfied_by(t),
            Pattern::Existence(p) => p.satisfied_by(t),
            Pattern::Absence(p) => p.satisfied_by(t),
        }
    }

    /// The scope of the pattern.
    pub open spec fn scope_of(&self) -> Scope {
        match self {
            Pattern::Response(p) => p.scope,
            Pattern::Precedence(p) => p.scope,
            Pattern::Existence(p) => p.scope,
            Pattern::Absence(p) => p.scope,
        }
    }

    /// Evaluate this pattern against `trace`.
    pub fn check(&self, trace: &Trace) -> (b: bool)
        ensures
            b == self.satisfied_by(trace.deep_view()),
    {
        match self {
            Pattern::Response(p) => p.check(trace),
            Pattern::Precedence(p) => p.check(trace),
            Pattern::Existence(p) => p.check(trace),
            Pattern::Absence(p) => p.check(trace),
        }
    }

    /// The scope of the pattern.
    fn scope(&self) -> (r: &Scope)
        ensures
            *r == self.scope_of(),
    {
        match self {
            Pattern::Response(p) => &p.scope,
            Pattern::Precedence(p) => &p.scope,
            Pattern::Existence(p) => &p.scope,
            Pattern::Absence(p) => &p.scope,
        }
    }
}

/// A combination of patterns with an AND/OR operator.
#[derive(Debug, Clone)]
pub struct Combination {
    /// The combining operator.
    pub op: CombinationOp,
    /// The patterns being combined.
    pub patterns: Vec<Pattern>,
}

/// All of `ps` hold of `t`.
pub open spec fn all_hold(ps: Seq<Pattern>, t: TraceModel) -> bool {
    forall|i: int| 0 <= i < ps.len() ==> #[trigger] ps[i].satisfied_by(t)
}

/// Some pattern of `ps` holds of `t`.
pub open spec fn any_holds(ps: Seq<Pattern>, t: TraceModel) -> bool {
    exists|i: int| 0 <= i < ps.len() && #[trigger] ps[i].satisfied_by(t)
}

/// The existence patterns among `ps`, in order.
pub open spec fn existence_patterns(ps: Seq<Pattern>) -> Seq<ExistencePattern>
    decreases ps.len(),
{
    if ps.len() == 0 {
        seq![]
    } else {
        existence_patterns(ps.drop_last()) + match ps.last() {
            Pattern::Existence(e) => seq![e],
            _ => seq![],
        }
    }
}

/// The absence patterns among `ps`, in order.
pub open spec fn absence_patterns(ps: Seq<Pattern>) -> Seq<AbsencePattern>
    decreases ps.len(),
{
    if ps.len() == 0 {
        seq![]
    } else {
        absence_patterns(ps.drop_last()) + match ps.last() {
            Pattern::Absence(a) => seq![a],
            _ => seq![],
        }
    }
}

/// The existence pattern `e` and the absence pattern `a` name the same
/// proposition and the same scope, and `a` is unconditional.
pub open spec fn contradicts(e: ExistencePattern, a: AbsencePattern) -> bool {
    &&& e.proposition@ == a.proposition@
    &&& e.scope@ == a.scope@
    &&& a.after is None
}

/// The description of a conflict between the existence of `e_prop` and the
/// absence of `a_prop`.
pub open spec fn conflict_message(e_prop: Seq<char>, a_prop: Seq<char>) -> Seq<char> {
    "Conflict: existence of \""@ + e_prop + "\" vs absence of \""@ + a_prop
        + "\" in same scope"@
}

/// The descriptions of the conflicts between `e` and each of `abs`, in order.
pub open spec fn conflicts_with(e: ExistencePattern, abs: Seq<AbsencePattern>) -> Seq<Seq<char>>
    decreases abs.len(),
{
    if abs.len() == 0 {
        seq![]
    } else {
        conflicts_with(e, abs.drop_last()) + if contradicts(e, abs.last()) {
            seq![conflict_message(e.proposition@, abs.last().proposition@)]
        } else {
            seq![]
        }
    }
}

/// The descriptions of the conflicts between each of `es` and each of
/// `abs`, existence patterns in the outer order.
pub open spec fn all_conflicts(es: Seq<ExistencePattern>, abs: Seq<AbsencePattern>) -> Seq<
    Seq<char>,
>
    decreases es.len(),
{
    if es.len() == 0 {
        seq![]
    } else {
        all_conflicts(es.drop_last(), abs) + conflicts_with(es.last(), abs)
    }
}

/// Position `i` of `t` lies in the scope of one of the first `k` patterns
/// of `ps`.
pub open spec fn covered_by_first(ps: Seq<Pattern>, t: TraceModel, k: int, i: int) -> bool {
    exists|m: int| 0 <= m < k && #[trigger] in_region(ps[m].scope_of()@, t, i)
}

/// The number of positions below `n` that lie in the scope of some pattern
/// of `ps`.
pub open spec fn covered_count(ps: Seq<Pattern>, t: TraceModel, n: int) -> nat
    decreases n,
{
    if n <= 0 {
        0
    } else {
        covered_count(ps, t, n - 1) + if covered_by_first(ps, t, ps.len() as int, n - 1) {
            1nat
        } else {
            0nat
        }
    }
}

impl Combination {
    /// The combination holds of the trace `t`.
    pub open spec fn satisfied_by(&self, t: TraceModel) -> bool {
        match self.op {
            CombinationOp::And => all_hold(self.patterns@, t),
            CombinationOp::Or => any_holds(self.patterns@, t),
        }
    }

    /// The descriptions of the conflicts among the patterns.
    pub open spec fn conflicts(&self) -> Seq<Seq<char>> {
        all_conflicts(existence_patterns(self.patterns@), absence_patterns(self.patterns@))
    }

    /// Create a new combination.
    pub fn new(op: CombinationOp, patterns: Vec<Pattern>) -> (r: Self)
        ensures
            r.op == op,
            r.patterns == patterns,
    {
        Combination { op, patterns }
    }

    /// Check whether `trace` satisfies this combination.
    pub fn check(&self, trace: &Trace) -> (b: bool)
        ensures
            b == self.satisfied_by(trace.deep_view()),
    {
        let ghost t = trace.deep_view();
        let ghost ps = self.patterns@;
        let mut i: usize = 0;
        while i < self.patterns.len()
            invariant
                i <= self.patterns.len(),
                t == trace.deep_view(),
                ps == self.patterns@,
                self.op == CombinationOp::And ==> all_hold(ps.take(i as int), t),
                self.op == CombinationOp::Or ==> !any_holds(ps.take(i as int), t),
            decreases self.patterns.len() - i,
        {
            let ok = self.patterns[i].check(trace);
            match self.op {
                CombinationOp::And => {
                    if !ok {
                        assert(!ps[i as int].satisfied_by(t));
                        return false;
                    }
                    assert forall|k: int| 0 <= k < i + 1 implies #[trigger] ps.take(
                        i + 1,
                    )[k].satisfied_by(t) by {
                        if k < i {
                            assert(ps.take(i as int)[k] == ps.take(i + 1)[k]);
                        }
                    }
                },
                CombinationOp::Or => {
                    if ok {
                        assert(ps[i as int].satisfied_by(t));
                        return true;
                    }
                    assert forall|k: int| 0 <= k < i + 1 implies !#[trigger] ps.take(
                        i + 1,
                    )[k].satisfied_by(t) by {
                        if k < i {
                            assert(ps.take(i as int)[k] == ps.take(i + 1)[k]);
                            assert(!(0 <= k < i && ps.take(i as int)[k].satisfied_by(t)));
                        }
                    }
                },
            }
            i = i + 1;
        }
        assert(ps.take(i as int) =~= ps);
        match self.op {
            CombinationOp::And => true,
            CombinationOp::Or => false,
        }
    }
}

/// The description of a conflict between the existence of `e_prop` and the
/// absence of `a_prop`.
fn describe_conflict(e_prop: &String, a_prop: &String) -> (r: String)
    ensures
        r@ == conflict_message(e_prop@, a_prop@),
{
    let mut r = "Conflict: existence of \"".to_owned();
    r.append(e_prop.as_str());
    r.append("\" vs absence of \"");
    r.append(a_prop.as_str());
    r.append("\" in same scope");
    r
}

impl Combination {
    /// Detect obvious conflicts between patterns.
    ///
    /// Returns a list of human-readable conflict descriptions: one for each
    /// pair of an existence pattern and an unconditional absence pattern
    /// of the same proposition in the same scope.
    pub fn detect_conflicts(&self) -> (r: Vec<String>)
        ensures
            r.deep_view() == self.conflicts(),
    {
        let ghost ps = self.patterns@;
        let ghost abs = absence_patterns(ps);
        let n = self.patterns.len();
        let mut conflicts: Vec<String> = Vec::new();
        let mut i: usize = 0;
        while i < n
            invariant
                i <= n == ps.len(),
                ps == self.patterns@,
                abs == absence_patterns(ps),
                conflicts.deep_view() == all_conflicts(existence_patterns(ps.take(i as int)), abs),
            decreases n - i,
        {
            let ghost es = existence_patterns(ps.take(i as int));
            assert(ps.take(i + 1).drop_last() =~= ps.take(i as int));
            if let Pattern::Existence(e) = &self.patterns[i] {
                let ghost before = conflicts.deep_view();
                let mut j: usize = 0;
                while j < n
                    invariant
                        i < n,
                        j <= n == ps.len(),
                        ps == self.patterns@,
                        ps[i as int] == Pattern::Existence(*e),
                        conflicts.deep_view() == before + conflicts_with(
                            *e,
                            absence_patterns(ps.take(j as int)),
                        ),
                    decreases n - j,
                {
                    let ghost absj = absence_patterns(ps.take(j as int));
                    assert(ps.take(j + 1).drop_last() =~= ps.take(j as int));
                    let ghost mid = conflicts.deep_view();
                    if let Pattern::Absence(a) = &self.patterns[j] {
                        assert(absence_patterns(ps.take(j + 1)) == absj.push(*a));
                        assert(absj.push(*a).drop_last() =~= absj);
                        if e.proposition == a.proposition && e.scope == a.scope
                            && a.after.is_none() {
                            conflicts.push(describe_conflict(&e.proposition, &a.proposition));
                            assert(conflicts.deep_view() =~= mid.push(
                                conflict_message(e.proposition@, a.proposition@),
                            ));
                        }
                        assert(conflicts.deep_view() =~= before + conflicts_with(
                            *e,
                            absj.push(*a),
                        ));
                    } else {
                        assert(absence_patterns(ps.take(j + 1)) =~= absj);
                    }
                    j = j + 1;
                }
                assert(ps.take(n as int) =~= ps);
                assert(existence_patterns(ps.take(i + 1)) == es.push(*e));
                assert(es.push(*e).drop_last() =~= es);
                assert(conflicts.deep_view() =~= all_conflicts(es.push(*e), abs));
            } else {
                assert(existence_patterns(ps.take(i + 1)) =~= es);
            }
            i = i + 1;
        }
        assert(ps.take(n as int) =~= ps);
        conflicts
    }
}

impl Combination {
    /// The number of trace positions that lie within the scope of at least
    /// one pattern, and the number of positions of the trace.
    ///
    /// Their ratio is the coverage of the trace; an empty trace counts as
    /// fully covered.
    pub fn coverage(&self, trace: &Trace) -> (r: (usize, usize))
        ensures
            r.0 == covered_count(self.patterns@, trace.deep_view(), trace.len() as int),
            r.1 == trace.len(),
    {
        let ghost t = trace.deep_view();
        let ghost ps = self.patterns@;
        let total = trace.len();
        if total == 0 {
            return (0, 0);
        }
        let mut covered: Vec<bool> = Vec::new();
        let mut i: usize = 0;
        while i < total
            invariant
                i <= total,
                covered.len() == i,
                forall|m: int| 0 <= m < i ==> !#[trigger] covered@[m],
            decreases total - i,
        {
            covered.push(false);
            i = i + 1;
        }
        let mut k: usize = 0;
        while k < self.patterns.len()
            invariant
                k <= self.patterns.len(),
                t == trace.deep_view(),
                ps == self.patterns@,
                total == trace.len() == covered.len(),
                forall|m: int|
                    0 <= m < total ==> #[trigger] covered@[m] == covered_by_first(
                        ps,
                        t,
                        k as int,
                        m,
                    ),
            decreases self.patterns.len() - k,
        {
            let ghost prev = covered@;
            match self.patterns[k].scope().scope_range(trace) {
                Some((start, end)) => {
                    let mut j: usize = start;
                    while j < end
                        invariant
                            start <= j <= end <= total == covered.len(),
                            forall|m: int|
                                0 <= m < total ==> #[trigger] covered@[m] == (prev[m] || (start
                                    <= m < j)),
                        decreases end - j,
                    {
                        covered.set(j, true);
                        j = j + 1;
                    }
                    assert forall|m: int| 0 <= m < total implies #[trigger] covered@[m]
                        == covered_by_first(ps, t, k + 1, m) by {
                        assert(in_region(ps[k as int].scope_of()@, t, m) == (start <= m < end));
                        if covered_by_first(ps, t, k as int, m) {
                            let w = choose|w: int|
                                0 <= w < k && #[trigger] in_region(ps[w].scope_of()@, t, m);
                            assert(0 <= w < k + 1 && in_region(ps[w].scope_of()@, t, m));
                        }
                        if covered_by_first(ps, t, k + 1, m) && !covered_by_first(
                            ps,
                            t,
                            k as int,
                            m,
                        ) {
                            let w = choose|w: int|
                                0 <= w < k + 1 && #[trigger] in_region(ps[w].scope_of()@, t, m);
                            assert(!(0 <= w < k && in_region(ps[w].scope_of()@, t, m)));
                        }
                    }
                },
                None => {
                    assert forall|m: int| 0 <= m < total implies #[trigger] covered@[m]
                        == covered_by_first(ps, t, k + 1, m) by {
                        assert(!in_region(ps[k as int].scope_of()@, t, m));
                        if covered_by_first(ps, t, k as int, m) {
                            let w = choose|w: int|
                                0 <= w < k && #[trigger] in_region(ps[w].scope_of()@, t, m);
                            assert(0 <= w < k + 1 && in_region(ps[w].scope_of()@, t, m));
                        }
                        if covered_by_first(ps, t, k + 1, m) {
                            let w = choose|w: int|
                                0 <= w < k + 1 && #[trigger] in_region(ps[w].scope_of()@, t, m);
                            assert(0 <= w < k && in_region(ps[w].scope_of()@, t, m));
                        }
                    }
                },
            }
            k = k + 1;
        }
        let mut count: usize = 0;
        let mut m: usize = 0;
        while m < total
            invariant
                m <= total == covered.len() == t.len(),
                t == trace.deep_view(),
                ps == self.patterns@,
                count <= m,
                count == covered_count(ps, t, m as int),
                forall|x: int|
                    0 <= x < total ==> #[trigger] covered@[x] == covered_by_first(
                        ps,
                        t,
                        ps.len() as int,
                        x,
                    ),
            decreases total - m,
        {
            if covered[m] {
                count = count + 1;
            }
            m = m + 1;
        }
        (count, total)
    }
}

} // verus!
