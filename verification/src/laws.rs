//! Properties of the library as a whole: how the patterns relate to one
//! another, what conflict detection and coverage promise, and the vacuous
//! truth conventions.
use vstd::prelude::*;

use crate::absence::{absence_holds, after_model, never_after, AbsencePattern};
use crate::combination::{
    absence_patterns, all_conflicts, all_hold, any_holds, conflicts_with, contradicts,
    covered_by_first, covered_count, existence_patterns, Combination, CombinationOp, Pattern,
};
use crate::existence::{bounded_end, existence_holds, ExistencePattern};
use crate::precedence::{precedence_holds, PrecedencePattern};
use crate::response::{response_holds, ResponsePattern};
use crate::scope::{in_region, lemma_region, region, Scope, ScopeModel};
use crate::trace::{first_from, holds, lemma_first_from, occurs_in, TraceModel};

verus! {

/// An existence pattern and an unconditional absence pattern of the same
/// proposition in the same scope never hold together.
pub proof fn law_existence_excludes_absence(e: ExistencePattern, a: AbsencePattern, t: TraceModel)
    requires
        contradicts(e, a),
    ensures
        !(e.satisfied_by(t) && a.satisfied_by(t)),
{
    lemma_region(e.scope@, t);
    match region(e.scope@, t) {
        None => {},
        Some((s, end)) => {
            let hi = match e.bound {
                None => end,
                Some(k) => bounded_end(s, end, k as int),
            };
            if e.satisfied_by(t) {
                let i = choose|i: int| s <= i < hi && #[trigger] holds(t, i, e.proposition@);
                assert(s <= i < end && holds(t, i, a.proposition@));
            }
        },
    }
}

/// Unbounded existence of a proposition holds exactly when its
/// unconditional absence, in the same scope, does not: in every trace
/// exactly one of the two holds.
pub proof fn law_existence_complements_absence(
    e: ExistencePattern,
    a: AbsencePattern,
    t: TraceModel,
)
    requires
        contradicts(e, a),
        e.bound is None,
    ensures
        e.satisfied_by(t) == !a.satisfied_by(t),
{
}

/// Widening the bound of a bounded existence pattern keeps it satisfied,
/// and bounded existence implies unbounded existence in the same scope.
pub proof fn law_existence_bound_monotone(
    narrow: ExistencePattern,
    wide: ExistencePattern,
    t: TraceModel,
)
    requires
        narrow.proposition@ == wide.proposition@,
        narrow.scope@ == wide.scope@,
        narrow.bound is Some,
        wide.bound is None || (wide.bound matches Some(k) && narrow.bound->0 <= k),
    ensures
        narrow.satisfied_by(t) ==> wide.satisfied_by(t),
{
    lemma_region(narrow.scope@, t);
    if narrow.satisfied_by(t) {
        let (s, end) = region(narrow.scope@, t)->0;
        let k = narrow.bound->0;
        let i = choose|i: int|
            s <= i < bounded_end(s, end, k as int) && #[trigger] holds(t, i, narrow.proposition@);
        match wide.bound {
            None => assert(s <= i < end && holds(t, i, wide.proposition@)),
            Some(k2) => assert(s <= i < bounded_end(s, end, k2 as int) && holds(
                t,
                i,
                wide.proposition@,
            )),
        }
    }
}

/// Unconditional absence of a proposition implies its absence after any
/// trigger, in the same scope.
pub proof fn law_absence_implies_absence_after(
    never: AbsencePattern,
    after: AbsencePattern,
    t: TraceModel,
)
    requires
        never.after is None,
        never.proposition@ == after.proposition@,
        never.scope@ == after.scope@,
    ensures
        never.satisfied_by(t) ==> after.satisfied_by(t),
{
    if never.satisfied_by(t) {
        match (region(never.scope@, t), after_model(after.after)) {
            (Some((s, e)), Some(q)) => {
                let p = after.proposition@;
                assert forall|j: int, i: int|
                    s <= j < i < e && holds(t, j, q) implies !holds(t, i, p) by {
                    assert(!(s <= i < e && holds(t, i, p)));
                }
                assert(never_after(t, p, q, s, e));
            },
            _ => {},
        }
    }
}

/// A pattern whose scope cannot be established in a trace holds vacuously,
/// except an existence pattern, which fails.
pub proof fn law_unestablished_scope(p: Pattern, t: TraceModel)
    requires
        region(p.scope_of()@, t) is None,
    ensures
        p.satisfied_by(t) == !(p is Existence),
{
}

/// On the empty trace every response, precedence and absence pattern
/// holds, and every existence pattern fails, whatever the scope.
pub proof fn law_empty_trace(p: Pattern)
    ensures
        p.satisfied_by(Seq::<Seq<Seq<char>>>::empty()) == !(p is Existence),
{
    let t = Seq::<Seq<Seq<char>>>::empty();
    lemma_region(p.scope_of()@, t);
    match region(p.scope_of()@, t) {
        None => {},
        Some((s, e)) => {
            assert(s == 0 && e == 0);
            if let Pattern::Existence(x) = p {
                let hi = match x.bound {
                    None => e,
                    Some(k) => bounded_end(s, e, k as int),
                };
                assert(!occurs_in(t, x.proposition@, s, hi));
            }
        },
    }
}

/// Response is the temporal mirror of precedence: over the whole trace,
/// "every `P` is eventually followed by `Q`" holds of a trace exactly when
/// "every `P` is preceded by `Q`" holds of the trace read backwards.
pub proof fn law_response_mirrors_precedence(
    r: ResponsePattern,
    p: PrecedencePattern,
    t: TraceModel,
)
    requires
        r.scope@ == ScopeModel::Global,
        p.scope@ == ScopeModel::Global,
        p.follower@ == r.trigger@,
        p.predecessor@ == r.response@,
    ensures
        r.satisfied_by(t) == p.satisfied_by(t.reverse()),
{
    let n = t.len() as int;
    let u = t.reverse();
    let trig = r.trigger@;
    let resp = r.response@;
    assert forall|i: int| 0 <= i < n implies #[trigger] u[i] == t[n - 1 - i] by {}
    if r.satisfied_by(t) {
        assert forall|i: int| 0 <= i < n && #[trigger] holds(u, i, trig) implies occurs_in(
            u,
            resp,
            0,
            i,
        ) by {
            assert(u[i] == t[n - 1 - i]);
            assert(holds(t, n - 1 - i, trig));
            let j = choose|j: int| n - 1 - i + 1 <= j < n && #[trigger] holds(t, j, resp);
            assert(u[n - 1 - j] == t[j]);
            assert(0 <= n - 1 - j < i && holds(u, n - 1 - j, resp));
        }
    }
    if p.satisfied_by(u) {
        assert forall|i: int| 0 <= i < n && #[trigger] holds(t, i, trig) implies occurs_in(
            t,
            resp,
            i + 1,
            n,
        ) by {
            assert(u[n - 1 - i] == t[i]);
            assert(holds(u, n - 1 - i, trig));
            let j = choose|j: int| 0 <= j < n - 1 - i && #[trigger] holds(u, j, resp);
            assert(u[j] == t[n - 1 - j]);
            assert(i + 1 <= n - 1 - j < n && holds(t, n - 1 - j, resp));
        }
    }
}

/// Every description in `conflicts_with(e, abs)` comes from an absence
/// pattern of `abs` that contradicts `e`.
proof fn lemma_conflicts_with_witness(e: ExistencePattern, abs: Seq<AbsencePattern>)
    requires
        conflicts_with(e, abs).len() > 0,
    ensures
        exists|j: int| 0 <= j < abs.len() && #[trigger] contradicts(e, abs[j]),
    decreases abs.len(),
{
    let last = abs.len() - 1;
    if contradicts(e, abs[last]) {
    } else {
        lemma_conflicts_with_witness(e, abs.drop_last());
        let j = choose|j: int| 0 <= j < abs.len() - 1 && #[trigger] contradicts(e, abs.drop_last()[j]);
        assert(abs.drop_last()[j] == abs[j]);
    }
}

/// Every description in `all_conflicts(es, abs)` comes from a pair of an
/// existence pattern of `es` and an absence pattern of `abs` that
/// contradict each other.
proof fn lemma_all_conflicts_witness(es: Seq<ExistencePattern>, abs: Seq<AbsencePattern>)
    requires
        all_conflicts(es, abs).len() > 0,
    ensures
        exists|i: int, j: int|
            0 <= i < es.len() && 0 <= j < abs.len() && #[trigger] contradicts(es[i], abs[j]),
    decreases es.len(),
{
    let last = es.len() - 1;
    if conflicts_with(es[last], abs).len() > 0 {
        lemma_conflicts_with_witness(es[last], abs);
        let j = choose|j: int| 0 <= j < abs.len() && #[trigger] contradicts(es[last], abs[j]);
        assert(contradicts(es[last], abs[j]));
    } else {
        lemma_all_conflicts_witness(es.drop_last(), abs);
        let (i, j) = choose|i: int, j: int|
            0 <= i < es.len() - 1 && 0 <= j < abs.len() && #[trigger] contradicts(
                es.drop_last()[i],
                abs[j],
            );
        assert(es.drop_last()[i] == es[i]);
        assert(contradicts(es[i], abs[j]));
    }
}

/// Each existence pattern listed by `existence_patterns(ps)` is one of `ps`.
proof fn lemma_existence_patterns_member(ps: Seq<Pattern>, i: int)
    requires
        0 <= i < existence_patterns(ps).len(),
    ensures
        exists|k: int|
            0 <= k < ps.len() && #[trigger] ps[k] == Pattern::Existence(existence_patterns(ps)[i]),
    decreases ps.len(),
{
    let init = existence_patterns(ps.drop_last());
    if i < init.len() {
        lemma_existence_patterns_member(ps.drop_last(), i);
        let k = choose|k: int|
            0 <= k < ps.len() - 1 && #[trigger] ps.drop_last()[k] == Pattern::Existence(init[i]);
        assert(ps[k] == ps.drop_last()[k]);
    } else {
        assert(ps[ps.len() - 1] == Pattern::Existence(existence_patterns(ps)[i]));
    }
}

/// Each absence pattern listed by `absence_patterns(ps)` is one of `ps`.
proof fn lemma_absence_patterns_member(ps: Seq<Pattern>, i: int)
    requires
        0 <= i < absence_patterns(ps).len(),
    ensures
        exists|k: int|
            0 <= k < ps.len() && #[trigger] ps[k] == Pattern::Absence(absence_patterns(ps)[i]),
    decreases ps.len(),
{
    let init = absence_patterns(ps.drop_last());
    if i < init.len() {
        lemma_absence_patterns_member(ps.drop_last(), i);
        let k = choose|k: int|
            0 <= k < ps.len() - 1 && #[trigger] ps.drop_last()[k] == Pattern::Absence(init[i]);
        assert(ps[k] == ps.drop_last()[k]);
    } else {
        assert(ps[ps.len() - 1] == Pattern::Absence(absence_patterns(ps)[i]));
    }
}

/// The conflicts that `detect_conflicts` reports are genuine: when it
/// reports any, no trace satisfies all the patterns together, so an AND
/// combination of them holds of no trace.
pub proof fn law_conflicts_are_unsatisfiable(c: Combination, t: TraceModel)
    requires
        c.conflicts().len() > 0,
    ensures
        !all_hold(c.patterns@, t),
        c.op == CombinationOp::And ==> !c.satisfied_by(t),
{
    let ps = c.patterns@;
    let es = existence_patterns(ps);
    let abs = absence_patterns(ps);
    lemma_all_conflicts_witness(es, abs);
    let (i, j) = choose|i: int, j: int|
        0 <= i < es.len() && 0 <= j < abs.len() && #[trigger] contradicts(es[i], abs[j]);
    lemma_existence_patterns_member(ps, i);
    lemma_absence_patterns_member(ps, j);
    let ke = choose|k: int| 0 <= k < ps.len() && #[trigger] ps[k] == Pattern::Existence(es[i]);
    let ka = choose|k: int| 0 <= k < ps.len() && #[trigger] ps[k] == Pattern::Absence(abs[j]);
    law_existence_excludes_absence(es[i], abs[j], t);
    if all_hold(ps, t) {
        assert(ps[ke].satisfied_by(t));
        assert(ps[ka].satisfied_by(t));
    }
}

/// A non-empty AND combination that holds implies the OR combination of
/// the same patterns; with no patterns, AND holds and OR fails.
pub proof fn law_and_implies_or(ps: Seq<Pattern>, t: TraceModel)
    ensures
        ps.len() > 0 && all_hold(ps, t) ==> any_holds(ps, t),
        ps.len() == 0 ==> all_hold(ps, t) && !any_holds(ps, t),
{
    if ps.len() > 0 && all_hold(ps, t) {
        assert(ps[0].satisfied_by(t));
    }
}

/// The covered positions are never more than the positions counted.
pub proof fn law_coverage_bounded(ps: Seq<Pattern>, t: TraceModel, n: int)
    requires
        0 <= n,
    ensures
        covered_count(ps, t, n) <= n,
    decreases n,
{
    if n > 0 {
        law_coverage_bounded(ps, t, n - 1);
    }
}

/// A pattern of global scope covers every position of the trace.
pub proof fn law_global_scope_covers_all(ps: Seq<Pattern>, t: TraceModel, g: int)
    requires
        0 <= g < ps.len(),
        ps[g].scope_of()@ == ScopeModel::Global,
    ensures
        covered_count(ps, t, t.len() as int) == t.len(),
{
    lemma_full_coverage(ps, t, g, t.len() as int);
}

/// With a pattern of global scope, every position below `n` (within the
/// trace) is covered.
proof fn lemma_full_coverage(ps: Seq<Pattern>, t: TraceModel, g: int, n: int)
    requires
        0 <= g < ps.len(),
        ps[g].scope_of()@ == ScopeModel::Global,
        0 <= n <= t.len(),
    ensures
        covered_count(ps, t, n) == n,
    decreases n,
{
    if n > 0 {
        lemma_full_coverage(ps, t, g, n - 1);
        assert(in_region(ps[g].scope_of()@, t, n - 1));
        assert(covered_by_first(ps, t, ps.len() as int, n - 1));
    }
}

/// What a response pattern means over an established region `[s, e)`:
/// it holds exactly when every position of the region where the trigger
/// holds is followed by a later position of the same region where the
/// response holds; a response at or after `e` never counts.
pub proof fn law_response_meaning(x: ResponsePattern, t: TraceModel, s: int, e: int)
    requires
        region(x.scope@, t) == Some((s, e)),
    ensures
        x.satisfied_by(t) <==> (forall|i: int|
            s <= i < e && #[trigger] t[i].contains(x.trigger@) ==> exists|j: int|
                i < j < e && #[trigger] t[j].contains(x.response@)),
{
    let trig = x.trigger@;
    let resp = x.response@;
    if x.satisfied_by(t) {
        assert forall|i: int| s <= i < e && #[trigger] t[i].contains(trig) implies exists|j: int|
            i < j < e && #[trigger] t[j].contains(resp) by {
            assert(holds(t, i, trig));
            let j = choose|j: int| i + 1 <= j < e && #[trigger] holds(t, j, resp);
            assert(t[j].contains(resp));
        }
    }
    if forall|i: int|
        s <= i < e && #[trigger] t[i].contains(trig) ==> exists|j: int|
            i < j < e && #[trigger] t[j].contains(resp) {
        assert forall|i: int| s <= i < e && #[trigger] holds(t, i, trig) implies occurs_in(
            t,
            resp,
            i + 1,
            e,
        ) by {
            assert(t[i].contains(trig));
            let j = choose|j: int| i < j < e && #[trigger] t[j].contains(resp);
            assert(holds(t, j, resp));
        }
    }
}

/// What a precedence pattern means over an established region `[s, e)`:
/// it holds exactly when every position of the region where the follower
/// holds has a strictly earlier position of the same region where the
/// predecessor holds; a predecessor before `s` never counts.
pub proof fn law_precedence_meaning(x: PrecedencePattern, t: TraceModel, s: int, e: int)
    requires
        region(x.scope@, t) == Some((s, e)),
    ensures
        x.satisfied_by(t) <==> (forall|i: int|
            s <= i < e && #[trigger] t[i].contains(x.follower@) ==> exists|j: int|
                s <= j < i && #[trigger] t[j].contains(x.predecessor@)),
{
    let fol = x.follower@;
    let pred = x.predecessor@;
    if x.satisfied_by(t) {
        assert forall|i: int| s <= i < e && #[trigger] t[i].contains(fol) implies exists|j: int|
            s <= j < i && #[trigger] t[j].contains(pred) by {
            assert(holds(t, i, fol));
            let j = choose|j: int| s <= j < i && #[trigger] holds(t, j, pred);
            assert(t[j].contains(pred));
        }
    }
    if forall|i: int|
        s <= i < e && #[trigger] t[i].contains(fol) ==> exists|j: int|
            s <= j < i && #[trigger] t[j].contains(pred) {
        assert forall|i: int| s <= i < e && #[trigger] holds(t, i, fol) implies occurs_in(
            t,
            pred,
            s,
            i,
        ) by {
            assert(t[i].contains(fol));
            let j = choose|j: int| s <= j < i && #[trigger] t[j].contains(pred);
            assert(holds(t, j, pred));
        }
    }
}

/// What an existence pattern means over an established region `[s, e)`:
/// unbounded, it holds exactly when the proposition holds at some position
/// of the region; with bound `k`, exactly when it holds at some position of
/// the region below `s + k`, whatever `k` is.
pub proof fn law_existence_meaning(x: ExistencePattern, t: TraceModel, s: int, e: int)
    requires
        region(x.scope@, t) == Some((s, e)),
    ensures
        x.bound is None ==> (x.satisfied_by(t) <==> exists|i: int|
            s <= i < e && #[trigger] t[i].contains(x.proposition@)),
        x.bound matches Some(k) ==> (x.satisfied_by(t) <==> exists|i: int|
            s <= i < e && i < s + k && #[trigger] t[i].contains(x.proposition@)),
{
    let p = x.proposition@;
    match x.bound {
        None => {
            if x.satisfied_by(t) {
                let i = choose|i: int| s <= i < e && #[trigger] holds(t, i, p);
                assert(t[i].contains(p));
            }
            if exists|i: int| s <= i < e && #[trigger] t[i].contains(p) {
                let i = choose|i: int| s <= i < e && #[trigger] t[i].contains(p);
                assert(holds(t, i, p));
            }
        },
        Some(k) => {
            let hi = bounded_end(s, e, k as int);
            if x.satisfied_by(t) {
                let i = choose|i: int| s <= i < hi && #[trigger] holds(t, i, p);
                assert(s <= i < e && i < s + k && t[i].contains(p));
            }
            if exists|i: int| s <= i < e && i < s + k && #[trigger] t[i].contains(p) {
                let i = choose|i: int| s <= i < e && i < s + k && #[trigger] t[i].contains(p);
                assert(s <= i < hi && holds(t, i, p));
            }
        },
    }
}

/// What an absence pattern means over an established region `[s, e)`:
/// unconditional, it holds exactly when the proposition holds at no
/// position of the region; after a trigger `q`, exactly when no position
/// of the region where the proposition holds comes after a position of the
/// region where `q` holds (every later position is forbidden, not only the
/// next one).
pub proof fn law_absence_meaning(x: AbsencePattern, t: TraceModel, s: int, e: int)
    requires
        region(x.scope@, t) == Some((s, e)),
    ensures
        x.after is None ==> (x.satisfied_by(t) <==> forall|i: int|
            s <= i < e ==> !#[trigger] t[i].contains(x.proposition@)),
        x.after matches Some(q) ==> (x.satisfied_by(t) <==> forall|j: int, i: int|
            #![trigger t[j].contains(q@), t[i].contains(x.proposition@)]
            s <= j < i < e && t[j].contains(q@) ==> !t[i].contains(x.proposition@)),
{
    let p = x.proposition@;
    match x.after {
        None => {
            if x.satisfied_by(t) {
                assert forall|i: int| s <= i < e implies !#[trigger] t[i].contains(p) by {
                    assert(!(s <= i < e && holds(t, i, p)));
                }
            }
            if forall|i: int| s <= i < e ==> !#[trigger] t[i].contains(p) {
                assert forall|i: int| s <= i < e implies !#[trigger] holds(t, i, p) by {
                    assert(!t[i].contains(p));
                }
            }
        },
        Some(q) => {
            let q = q@;
            if x.satisfied_by(t) {
                assert forall|j: int, i: int|
                    #![trigger t[j].contains(q), t[i].contains(p)]
                    s <= j < i < e && t[j].contains(q) implies !t[i].contains(p) by {
                    assert(holds(t, j, q));
                    assert(!holds(t, i, p));
                }
            }
            if forall|j: int, i: int|
                #![trigger t[j].contains(q), t[i].contains(p)]
                s <= j < i < e && t[j].contains(q) ==> !t[i].contains(p) {
                assert forall|j: int, i: int|
                    #![trigger holds(t, j, q), holds(t, i, p)]
                    s <= j < i < e && holds(t, j, q) implies !holds(t, i, p) by {
                    assert(t[j].contains(q));
                    assert(!t[i].contains(p));
                }
                assert(never_after(t, p, q, s, e));
            }
        },
    }
}

/// An absence-after pattern fails as soon as, in its established region,
/// the proposition holds at any position after one where the trigger holds,
/// however far after.
pub proof fn law_absence_after_violated(
    x: AbsencePattern,
    t: TraceModel,
    s: int,
    e: int,
    j: int,
    i: int,
)
    requires
        region(x.scope@, t) == Some((s, e)),
        x.after matches Some(q) && t[j].contains(q@),
        s <= j < i < e,
        t[i].contains(x.proposition@),
    ensures
        !x.satisfied_by(t),
{
    law_absence_meaning(x, t, s, e);
}

/// What a combination means: AND holds exactly when every pattern holds,
/// OR exactly when at least one pattern holds.
pub proof fn law_combination_meaning(c: Combination, t: TraceModel)
    ensures
        c.op == CombinationOp::And ==> (c.satisfied_by(t) <==> forall|i: int|
            0 <= i < c.patterns@.len() ==> #[trigger] c.patterns@[i].satisfied_by(t)),
        c.op == CombinationOp::Or ==> (c.satisfied_by(t) <==> exists|i: int|
            0 <= i < c.patterns@.len() && #[trigger] c.patterns@[i].satisfied_by(t)),
{
}

/// One satisfied pattern makes an OR combination hold, whatever the others
/// give; one failing pattern makes an AND combination fail.
pub proof fn law_combination_single_pattern(c: Combination, t: TraceModel, i: int)
    requires
        0 <= i < c.patterns@.len(),
    ensures
        c.op == CombinationOp::Or && c.patterns@[i].satisfied_by(t) ==> c.satisfied_by(t),
        c.op == CombinationOp::And && !c.patterns@[i].satisfied_by(t) ==> !c.satisfied_by(t),
{
}

/// A pattern inside a combination means what the pattern it wraps means.
pub proof fn law_pattern_meaning(p: Pattern, t: TraceModel)
    ensures
        p matches Pattern::Response(x) ==> p.satisfied_by(t) == x.satisfied_by(t),
        p matches Pattern::Precedence(x) ==> p.satisfied_by(t) == x.satisfied_by(t),
        p matches Pattern::Existence(x) ==> p.satisfied_by(t) == x.satisfied_by(t),
        p matches Pattern::Absence(x) ==> p.satisfied_by(t) == x.satisfied_by(t),
        p matches Pattern::Response(x) ==> p.scope_of() == x.scope,
        p matches Pattern::Precedence(x) ==> p.scope_of() == x.scope,
        p matches Pattern::Existence(x) ==> p.scope_of() == x.scope,
        p matches Pattern::Absence(x) ==> p.scope_of() == x.scope,
{
}

/// `i` is the first position of `t` where `p` holds.
pub open spec fn is_first(t: TraceModel, p: Seq<char>, i: int) -> bool {
    &&& 0 <= i < t.len()
    &&& t[i].contains(p)
    &&& forall|k: int| 0 <= k < i ==> !#[trigger] t[k].contains(p)
}

/// What each scope selects: `Global` the whole trace; `After(R)` the
/// positions from the first `R` to the end; `Before(S)` those before the
/// first `S`; `Between(R, S)` those from the first `R` up to the first `S`
/// strictly after it. A scope whose boundary does not occur (for `Between`,
/// no `S` after the first `R`) selects nothing.
pub proof fn law_scope_meaning(scope: ScopeModel, t: TraceModel)
    ensures
        match scope {
            ScopeModel::Global => region(scope, t) == Some((0int, t.len() as int)),
            ScopeModel::After(r) => match region(scope, t) {
                Some((s, e)) => is_first(t, r, s) && e == t.len(),
                None => forall|i: int| 0 <= i < t.len() ==> !#[trigger] t[i].contains(r),
            },
            ScopeModel::Before(q) => match region(scope, t) {
                Some((s, e)) => s == 0 && is_first(t, q, e),
                None => forall|i: int| 0 <= i < t.len() ==> !#[trigger] t[i].contains(q),
            },
            ScopeModel::Between(r, q) => match region(scope, t) {
                Some((s, e)) => is_first(t, r, s) && s < e < t.len() && t[e].contains(q)
                    && forall|k: int| s < k < e ==> !#[trigger] t[k].contains(q),
                None => (forall|i: int| 0 <= i < t.len() ==> !#[trigger] t[i].contains(r))
                    || exists|f: int|
                    #[trigger] is_first(t, r, f) && forall|k: int|
                        f < k < t.len() ==> !#[trigger] t[k].contains(q),
            },
        },
{
    lemma_region(scope, t);
    match scope {
        ScopeModel::Global => {},
        ScopeModel::After(r) => {
            lemma_first_from(t, r, 0);
            match region(scope, t) {
                Some((s, e)) => {
                    assert forall|k: int| 0 <= k < s implies !#[trigger] t[k].contains(r) by {
                        assert(!(0 <= k < s && holds(t, k, r)));
                    }
                },
                None => {
                    assert forall|i: int| 0 <= i < t.len() implies !#[trigger] t[i].contains(r) by {
                        assert(!(0 <= i < t.len() && holds(t, i, r)));
                    }
                },
            }
        },
        ScopeModel::Before(q) => {
            lemma_first_from(t, q, 0);
            match region(scope, t) {
                Some((s, e)) => {
                    assert forall|k: int| 0 <= k < e implies !#[trigger] t[k].contains(q) by {
                        assert(!(0 <= k < e && holds(t, k, q)));
                    }
                },
                None => {
                    assert forall|i: int| 0 <= i < t.len() implies !#[trigger] t[i].contains(q) by {
                        assert(!(0 <= i < t.len() && holds(t, i, q)));
                    }
                },
            }
        },
        ScopeModel::Between(r, q) => {
            lemma_first_from(t, r, 0);
            match region(scope, t) {
                Some((s, e)) => {
                    assert forall|k: int| 0 <= k < s implies !#[trigger] t[k].contains(r) by {
                        assert(!(0 <= k < s && holds(t, k, r)));
                    }
                    assert forall|k: int| s < k < e implies !#[trigger] t[k].contains(q) by {
                        assert(!(s + 1 <= k < e && holds(t, k, q)));
                    }
                },
                None => {
                    match first_from(t, r, 0) {
                        None => {
                            assert forall|i: int| 0 <= i < t.len() implies !#[trigger] t[
                                i
                            ].contains(r) by {
                                assert(!(0 <= i < t.len() && holds(t, i, r)));
                            }
                        },
                        Some(f) => {
                            lemma_first_from(t, q, f + 1);
                            assert forall|k: int| 0 <= k < f implies !#[trigger] t[k].contains(
                                r,
                            ) by {
                                assert(!(0 <= k < f && holds(t, k, r)));
                            }
                            assert forall|k: int| f < k < t.len() implies !#[trigger] t[
                                k
                            ].contains(q) by {
                                assert(!(f + 1 <= k < t.len() && holds(t, k, q)));
                            }
                            assert(is_first(t, r, f));
                        },
                    }
                },
            }
        },
    }
}

/// The text that reports a conflict on proposition `p`.
pub open spec fn conflict_text(p: Seq<char>) -> Seq<char> {
    "Conflict: existence of \""@ + p + "\" vs absence of \""@ + p + "\" in same scope"@
}

/// Patterns `i` and `j` of `ps` are an existence pattern and an
/// unconditional absence pattern of the same proposition in the same scope.
pub open spec fn conflicting_pair(ps: Seq<Pattern>, i: int, j: int) -> bool {
    &&& 0 <= i < ps.len()
    &&& 0 <= j < ps.len()
    &&& ps[i] matches Pattern::Existence(e)
    &&& ps[j] matches Pattern::Absence(a)
    &&& e.proposition@ == a.proposition@
    &&& e.scope@ == a.scope@
    &&& a.after is None
}

/// `msg` reports a pair of an existence pattern of `es` and an absence
/// pattern of `abs` that contradict each other.
spec fn reports_listed_pair(es: Seq<ExistencePattern>, abs: Seq<AbsencePattern>, msg: Seq<char>) -> bool {
    exists|i: int, j: int|
        0 <= i < es.len() && 0 <= j < abs.len() && #[trigger] contradicts(es[i], abs[j]) && msg
            == conflict_text(es[i].proposition@)
}

/// `msg` reports the proposition of a conflicting pair of patterns of `ps`.
pub open spec fn reports_pair(ps: Seq<Pattern>, msg: Seq<char>) -> bool {
    exists|i: int, j: int|
        #[trigger] conflicting_pair(ps, i, j) && msg == conflict_text(
            ps[i]->Existence_0.proposition@,
        )
}

/// An existence pattern at position `k` of `ps` is listed by
/// `existence_patterns(ps)`.
proof fn lemma_existence_listed(ps: Seq<Pattern>, k: int)
    requires
        0 <= k < ps.len(),
        ps[k] is Existence,
    ensures
        exists|i: int|
            0 <= i < existence_patterns(ps).len() && #[trigger] existence_patterns(ps)[i]
                == ps[k]->Existence_0,
    decreases ps.len(),
{
    let init = existence_patterns(ps.drop_last());
    if k == ps.len() - 1 {
        assert(existence_patterns(ps)[init.len() as int] == ps[k]->Existence_0);
    } else {
        assert(ps.drop_last()[k] == ps[k]);
        lemma_existence_listed(ps.drop_last(), k);
        let i = choose|i: int| 0 <= i < init.len() && #[trigger] init[i] == ps[k]->Existence_0;
        assert(existence_patterns(ps)[i] == init[i]);
    }
}

/// An absence pattern at position `k` of `ps` is listed by
/// `absence_patterns(ps)`.
proof fn lemma_absence_listed(ps: Seq<Pattern>, k: int)
    requires
        0 <= k < ps.len(),
        ps[k] is Absence,
    ensures
        exists|j: int|
            0 <= j < absence_patterns(ps).len() && #[trigger] absence_patterns(ps)[j]
                == ps[k]->Absence_0,
    decreases ps.len(),
{
    let init = absence_patterns(ps.drop_last());
    if k == ps.len() - 1 {
        assert(absence_patterns(ps)[init.len() as int] == ps[k]->Absence_0);
    } else {
        assert(ps.drop_last()[k] == ps[k]);
        lemma_absence_listed(ps.drop_last(), k);
        let j = choose|j: int| 0 <= j < init.len() && #[trigger] init[j] == ps[k]->Absence_0;
        assert(absence_patterns(ps)[j] == init[j]);
    }
}

/// A contradicting absence pattern in `abs` yields a description.
proof fn lemma_conflicts_with_nonempty(e: ExistencePattern, abs: Seq<AbsencePattern>, j: int)
    requires
        0 <= j < abs.len(),
        contradicts(e, abs[j]),
    ensures
        conflicts_with(e, abs).len() > 0,
    decreases abs.len(),
{
    if j < abs.len() - 1 {
        assert(abs.drop_last()[j] == abs[j]);
        lemma_conflicts_with_nonempty(e, abs.drop_last(), j);
    }
}

/// An existence pattern of `es` with a conflict yields a description.
proof fn lemma_all_conflicts_nonempty(
    es: Seq<ExistencePattern>,
    abs: Seq<AbsencePattern>,
    i: int,
)
    requires
        0 <= i < es.len(),
        conflicts_with(es[i], abs).len() > 0,
    ensures
        all_conflicts(es, abs).len() > 0,
    decreases es.len(),
{
    if i < es.len() - 1 {
        assert(es.drop_last()[i] == es[i]);
        lemma_all_conflicts_nonempty(es.drop_last(), abs, i);
    }
}

/// Every description in `conflicts_with(e, abs)` reports the proposition
/// of `e`, and comes from an absence pattern of `abs` contradicting `e`.
proof fn lemma_conflicts_with_text(e: ExistencePattern, abs: Seq<AbsencePattern>)
    ensures
        forall|m: int|
            0 <= m < conflicts_with(e, abs).len() ==> #[trigger] conflicts_with(e, abs)[m]
                == conflict_text(e.proposition@),
        conflicts_with(e, abs).len() > 0 ==> exists|j: int|
            0 <= j < abs.len() && #[trigger] contradicts(e, abs[j]),
    decreases abs.len(),
{
    if abs.len() > 0 {
        let init = conflicts_with(e, abs.drop_last());
        lemma_conflicts_with_text(e, abs.drop_last());
        assert forall|m: int|
            0 <= m < conflicts_with(e, abs).len() implies #[trigger] conflicts_with(e, abs)[m]
            == conflict_text(e.proposition@) by {
            if m < init.len() {
                assert(conflicts_with(e, abs)[m] == init[m]);
            }
        }
        if conflicts_with(e, abs).len() > 0 {
            lemma_conflicts_with_witness(e, abs);
        }
    }
}

/// Every description in `all_conflicts(es, abs)` reports the proposition
/// of some existence pattern of `es` that has a conflict in `abs`.
proof fn lemma_all_conflicts_text(es: Seq<ExistencePattern>, abs: Seq<AbsencePattern>)
    ensures
        forall|m: int|
            0 <= m < all_conflicts(es, abs).len() ==> reports_listed_pair(
                es,
                abs,
                #[trigger] all_conflicts(es, abs)[m],
            ),
    decreases es.len(),
{
    if es.len() > 0 {
        let init = all_conflicts(es.drop_last(), abs);
        let last = es[es.len() - 1];
        lemma_all_conflicts_text(es.drop_last(), abs);
        lemma_conflicts_with_text(last, abs);
        assert forall|m: int| 0 <= m < all_conflicts(es, abs).len() implies reports_listed_pair(
            es,
            abs,
            #[trigger] all_conflicts(es, abs)[m],
        ) by {
            if m < init.len() {
                assert(all_conflicts(es, abs)[m] == init[m]);
                assert(reports_listed_pair(es.drop_last(), abs, init[m]));
                let (i, j) = choose|i: int, j: int|
                    0 <= i < es.len() - 1 && 0 <= j < abs.len() && #[trigger] contradicts(
                        es.drop_last()[i],
                        abs[j],
                    ) && init[m] == conflict_text(es.drop_last()[i].proposition@);
                assert(es.drop_last()[i] == es[i]);
                assert(contradicts(es[i], abs[j]));
                assert(all_conflicts(es, abs)[m] == conflict_text(es[i].proposition@));
            } else {
                let cw = conflicts_with(last, abs);
                assert(all_conflicts(es, abs)[m] == cw[m - init.len()]);
                assert(cw.len() > 0);
                let j = choose|j: int| 0 <= j < abs.len() && #[trigger] contradicts(last, abs[j]);
                assert(contradicts(es[es.len() - 1], abs[j]));
                assert(all_conflicts(es, abs)[m] == conflict_text(es[es.len() - 1].proposition@));
            }
        }
    }
}

/// Conflict detection reports a conflict exactly when the patterns include
/// an existence pattern and an unconditional absence pattern of the same
/// proposition in the same scope, and each report names the proposition of
/// such a pair in the fixed wording.
pub proof fn law_conflicts_meaning(c: Combination)
    ensures
        c.conflicts().len() > 0 <==> exists|i: int, j: int| #[trigger]
            conflicting_pair(c.patterns@, i, j),
        forall|m: int|
            0 <= m < c.conflicts().len() ==> reports_pair(c.patterns@, #[trigger] c.conflicts()[m]),
{
    let ps = c.patterns@;
    let es = existence_patterns(ps);
    let abs = absence_patterns(ps);
    if exists|i: int, j: int| #[trigger] conflicting_pair(ps, i, j) {
        let (i, j) = choose|i: int, j: int| #[trigger] conflicting_pair(ps, i, j);
        lemma_existence_listed(ps, i);
        lemma_absence_listed(ps, j);
        let ie = choose|x: int| 0 <= x < es.len() && #[trigger] es[x] == ps[i]->Existence_0;
        let ja = choose|x: int| 0 <= x < abs.len() && #[trigger] abs[x] == ps[j]->Absence_0;
        lemma_conflicts_with_nonempty(es[ie], abs, ja);
        lemma_all_conflicts_nonempty(es, abs, ie);
    }
    lemma_all_conflicts_text(es, abs);
    assert forall|m: int| 0 <= m < c.conflicts().len() implies reports_pair(
        ps,
        #[trigger] c.conflicts()[m],
    ) by {
        assert(reports_listed_pair(es, abs, all_conflicts(es, abs)[m]));
        let (x, y) = choose|x: int, y: int|
            0 <= x < es.len() && 0 <= y < abs.len() && #[trigger] contradicts(es[x], abs[y])
                && all_conflicts(es, abs)[m] == conflict_text(es[x].proposition@);
        lemma_existence_patterns_member(ps, x);
        lemma_absence_patterns_member(ps, y);
        let i = choose|k: int| 0 <= k < ps.len() && #[trigger] ps[k] == Pattern::Existence(es[x]);
        let j = choose|k: int| 0 <= k < ps.len() && #[trigger] ps[k] == Pattern::Absence(abs[y]);
        assert(conflicting_pair(ps, i, j));
    }
    if c.conflicts().len() > 0 {
        assert(reports_pair(ps, c.conflicts()[0]));
    }
}

/// The positions below `n` (and not below 0) that lie in the established
/// region of at least one pattern of `ps`.
pub open spec fn covered_positions(ps: Seq<Pattern>, t: TraceModel, n: int) -> Set<int> {
    Set::new(
        |i: int|
            0 <= i < n && exists|k: int|
                0 <= k < ps.len() && (#[trigger] region(ps[k].scope_of()@, t) matches Some((s, e))
                    && s <= i < e),
    )
}

/// The covered count below `n` is the size of the set of covered positions
/// below `n`.
proof fn lemma_covered_count_is_size(ps: Seq<Pattern>, t: TraceModel, n: int)
    requires
        0 <= n,
    ensures
        covered_positions(ps, t, n).finite(),
        covered_count(ps, t, n) == covered_positions(ps, t, n).len(),
    decreases n,
{
    vstd::set_lib::lemma_int_range(0, n);
    vstd::set_lib::lemma_len_subset(covered_positions(ps, t, n), vstd::set_lib::set_int_range(0, n));
    if n > 0 {
        lemma_covered_count_is_size(ps, t, n - 1);
        let prev = covered_positions(ps, t, n - 1);
        let cur = covered_positions(ps, t, n);
        let m = n - 1;
        if covered_by_first(ps, t, ps.len() as int, m) {
            let k = choose|k: int| 0 <= k < ps.len() && #[trigger] in_region(ps[k].scope_of()@, t, m);
            assert(region(ps[k].scope_of()@, t) matches Some((s, e)) && s <= m < e);
            assert(cur =~= prev.insert(m));
        } else {
            assert forall|k: int| 0 <= k < ps.len() implies !(#[trigger] region(
                ps[k].scope_of()@,
                t,
            ) matches Some((s, e)) && s <= m < e) by {
                assert(!in_region(ps[k].scope_of()@, t, m));
            }
            assert(cur =~= prev);
        }
    }
}

/// `coverage` counts exactly the positions of the trace that lie in the
/// region of at least one pattern's scope.
pub proof fn law_coverage_meaning(c: Combination, t: TraceModel)
    ensures
        covered_positions(c.patterns@, t, t.len() as int).finite(),
        covered_count(c.patterns@, t, t.len() as int) == covered_positions(
            c.patterns@,
            t,
            t.len() as int,
        ).len(),
{
    lemma_covered_count_is_size(c.patterns@, t, t.len() as int);
}

/// A scope's mathematical value names the same propositions as the scope.
pub proof fn law_scope_view(scope: Scope)
    ensures
        scope is Global ==> scope@ == ScopeModel::Global,
        scope matches Scope::After(r) ==> scope@ == ScopeModel::After(r@),
        scope matches Scope::Before(q) ==> scope@ == ScopeModel::Before(q@),
        scope matches Scope::Between(r, q) ==> scope@ == ScopeModel::Between(r@, q@),
{
}

} // verus!
