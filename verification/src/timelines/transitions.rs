//! Transitions of timelines: each condition and each effect that is not relaxed becomes a
//! transition, and a condition and an effect of the same task on the same state variable,
//! with the same presence, become a single condition-effect transition.
use vstd::prelude::*;
use crate::timelines::groundings::{IntCst, IntTerm, Source, TaskId, TransitionId};
use crate::timelines::boxes::Segment;
use crate::timelines::supports::{LitId, SupportsSorted, sort_keyed, sorted_keyed};

verus! {

pub type CondId = usize;

pub type EffectId = usize;

/// A state variable: a fluent (by index) applied to terms.
pub struct StateVar {
    pub fluent: usize,
    pub args: Vec<IntTerm>,
}

/// A condition: the state variable has `value` when the condition is present.
pub struct Condition {
    pub source: Source,
    pub state_var: StateVar,
    pub prez: LitId,
    pub value: IntTerm,
}

/// An effect: the state variable is assigned `op` when the effect is present.
pub struct Effect {
    pub source: Source,
    pub state_var: StateVar,
    pub prez: LitId,
    pub op: IntTerm,
}

#[derive(Debug, Clone, Copy, PartialEq, Eq, Structural)]
pub enum Transition {
    Cond(CondId),
    Eff(EffectId),
    /// A condition and an effect sharing their source, presence and state variable.
    CondEff(CondId, EffectId),
}

#[derive(Debug, Clone, Copy, PartialEq, Eq, Structural)]
pub enum TransitionType {
    Cond,
    Eff,
    CondEff,
}

impl Transition {
    pub fn tpe(&self) -> (res: TransitionType)
        ensures
            res == match *self {
                Transition::Cond(_) => TransitionType::Cond,
                Transition::Eff(_) => TransitionType::Eff,
                Transition::CondEff(_, _) => TransitionType::CondEff,
            },
    {
        match self {
            Transition::Cond(_) => TransitionType::Cond,
            Transition::Eff(_) => TransitionType::Eff,
            Transition::CondEff(_, _) => TransitionType::CondEff,
        }
    }
}

/// The condition and the effect share their source, state variable and presence.
pub open spec fn compatible(c: Condition, e: Effect) -> bool {
    &&& c.source == e.source
    &&& c.state_var.fluent == e.state_var.fluent
    &&& c.state_var.args@ == e.state_var.args@
    &&& c.prez == e.prez
}

/// Position of a source in the order sources are visited: the empty source, then tasks by index.
pub open spec fn rank(s: Source) -> int {
    match s {
        None => 0,
        Some(t) => t.id + 1,
    }
}

/// The source of a transition.
pub open spec fn trans_source(conds: Seq<Condition>, effs: Seq<Effect>, tr: Transition) -> Source {
    match tr {
        Transition::Cond(c) => conds[c as int].source,
        Transition::Eff(e) => effs[e as int].source,
        Transition::CondEff(c, _) => conds[c as int].source,
    }
}

/// The store and the maps from conditions and effects to transitions agree: each transition
/// is the one of its condition and of its effect, a condition-effect joins a compatible pair
/// of a task, and an effect's transition holds it or a condition compatible with it.
pub open spec fn linked(
    conds: Seq<Condition>,
    effs: Seq<Effect>,
    store: Seq<Transition>,
    ofc: Seq<Option<TransitionId>>,
    ofe: Seq<Option<TransitionId>>,
) -> bool {
    &&& ofc.len() == conds.len()
    &&& ofe.len() == effs.len()
    &&& forall|c: int| 0 <= c < ofc.len() && (#[trigger] ofc[c]) is Some ==> ofc[c]->0 < store.len() && (
        store[ofc[c]->0 as int] == Transition::Cond(c as CondId)
        || (store[ofc[c]->0 as int] matches Transition::CondEff(c2, _) && c2 == c))
    &&& forall|e: int| 0 <= e < ofe.len() && (#[trigger] ofe[e]) is Some ==> ofe[e]->0 < store.len() && (
        store[ofe[e]->0 as int] == Transition::Eff(e as EffectId)
        || (store[ofe[e]->0 as int] matches Transition::CondEff(c2, _) && c2 < conds.len() && compatible(conds[c2 as int], effs[e])))
    &&& forall|t: int| 0 <= t < store.len() ==> match #[trigger] store[t] {
        Transition::Cond(c) => c < conds.len() && ofc[c as int] == Some(t as TransitionId),
        Transition::Eff(e) => e < effs.len() && ofe[e as int] == Some(t as TransitionId),
        Transition::CondEff(c, e) => c < conds.len() && e < effs.len() && ofc[c as int] == Some(t as TransitionId)
            && ofe[e as int] == Some(t as TransitionId) && compatible(conds[c as int], effs[e as int])
            && conds[c as int].source is Some,
    }
}

fn contains_id(ids: &[usize], x: usize) -> (res: bool)
    ensures
        res == ids@.contains(x),
{
    let mut i: usize = 0;
    while i < ids.len()
        invariant
            i <= ids@.len(),
            forall|j: int| 0 <= j < i ==> ids@[j] != x,
        decreases ids@.len() - i,
    {
        if ids[i] == x {
            assert(ids@[i as int] == x);
            return true;
        }
        i = i + 1;
    }
    false
}

fn terms_eq(a: &[IntTerm], b: &[IntTerm]) -> (res: bool)
    ensures
        res == (a@ == b@),
{
    if a.len() != b.len() {
        return false;
    }
    let mut i: usize = 0;
    while i < a.len()
        invariant
            i <= a@.len() == b@.len(),
            forall|j: int| 0 <= j < i ==> a@[j] == b@[j],
        decreases a@.len() - i,
    {
        if a[i] != b[i] {
            return false;
        }
        i = i + 1;
    }
    assert(a@ =~= b@);
    true
}

fn same_source(a: Source, b: Source) -> (res: bool)
    ensures
        res == (a == b),
{
    match (a, b) {
        (None, None) => true,
        (Some(x), Some(y)) => x.id == y.id,
        _ => false,
    }
}

fn compatible_exec(c: &Condition, e: &Effect) -> (res: bool)
    ensures
        res == compatible(*c, *e),
{
    same_source(c.source, e.source) && c.state_var.fluent == e.state_var.fluent && terms_eq(
        c.state_var.args.as_slice(),
        e.state_var.args.as_slice(),
    ) && c.prez == e.prez
}

fn rank_exec(s: Source) -> (res: usize)
    requires
        s matches Some(t) ==> t.id < usize::MAX,
    ensures
        res == rank(s),
{
    match s {
        None => 0,
        Some(t) => t.id + 1,
    }
}

/// The highest rank among the sources of the conditions and effects.
fn max_rank(conds: &[Condition], effs: &[Effect]) -> (n: usize)
    requires
        forall|c: int| 0 <= c < conds@.len() ==> rank(#[trigger] conds@[c].source) < usize::MAX,
        forall|e: int| 0 <= e < effs@.len() ==> rank(#[trigger] effs@[e].source) < usize::MAX,
    ensures
        n < usize::MAX,
        forall|c: int| 0 <= c < conds@.len() ==> rank(#[trigger] conds@[c].source) <= n,
        forall|e: int| 0 <= e < effs@.len() ==> rank(#[trigger] effs@[e].source) <= n,
{
    let mut n: usize = 0;
    let mut i: usize = 0;
    while i < conds.len()
        invariant
            i <= conds@.len(),
            n < usize::MAX,
            forall|c: int| 0 <= c < conds@.len() ==> rank(#[trigger] conds@[c].source) < usize::MAX,
            forall|c: int| 0 <= c < i ==> rank(#[trigger] conds@[c].source) <= n,
        decreases conds@.len() - i,
    {
        let r = rank_exec(conds[i].source);
        if r > n {
            n = r;
        }
        i = i + 1;
    }
    let mut j: usize = 0;
    while j < effs.len()
        invariant
            j <= effs@.len(),
            n < usize::MAX,
            forall|c: int| 0 <= c < conds@.len() ==> rank(#[trigger] conds@[c].source) <= n,
            forall|e: int| 0 <= e < effs@.len() ==> rank(#[trigger] effs@[e].source) < usize::MAX,
            forall|e: int| 0 <= e < j ==> rank(#[trigger] effs@[e].source) <= n,
        decreases effs@.len() - j,
    {
        let r = rank_exec(effs[j].source);
        if r > n {
            n = r;
        }
        j = j + 1;
    }
    n
}

/// One transition per condition that is not ignored, by source then index.
fn conditions_pass(conds: &[Condition], effs: &[Effect], ignored: &[CondId], n: usize) -> (res: (
    Vec<Transition>,
    Vec<Option<TransitionId>>,
    Vec<Option<TransitionId>>,
))
    requires
        n < usize::MAX,
        forall|c: int| 0 <= c < conds@.len() ==> rank(#[trigger] conds@[c].source) <= n,
    ensures
        linked(conds@, effs@, res.0@, res.1@, res.2@),
        forall|c: int| 0 <= c < conds@.len() ==> ((#[trigger] res.1@[c]) is Some <==> !ignored@.contains(c as CondId)),
        forall|e: int| 0 <= e < effs@.len() ==> (#[trigger] res.2@[e]) is None,
{
    let mut ofc: Vec<Option<TransitionId>> = Vec::new();
    let mut i: usize = 0;
    while i < conds.len()
        invariant
            i <= conds@.len(),
            ofc@.len() == i,
            forall|c: int| 0 <= c < i ==> (#[trigger] ofc@[c]) is None,
        decreases conds@.len() - i,
    {
        ofc.push(None);
        i = i + 1;
    }
    let mut ofe: Vec<Option<TransitionId>> = Vec::new();
    let mut j: usize = 0;
    while j < effs.len()
        invariant
            j <= effs@.len(),
            ofe@.len() == j,
            forall|e: int| 0 <= e < j ==> (#[trigger] ofe@[e]) is None,
        decreases effs@.len() - j,
    {
        ofe.push(None);
        j = j + 1;
    }
    let mut store: Vec<Transition> = Vec::new();
    let mut k: usize = 0;
    while k <= n
        invariant
            n < usize::MAX,
            k <= n + 1,
            forall|c: int| 0 <= c < conds@.len() ==> rank(#[trigger] conds@[c].source) <= n,
            linked(conds@, effs@, store@, ofc@, ofe@),
            forall|c: int| 0 <= c < conds@.len() ==> ((#[trigger] ofc@[c]) is Some <==> (!ignored@.contains(c as CondId)
                && rank(conds@[c].source) < k)),
            forall|e: int| 0 <= e < effs@.len() ==> (#[trigger] ofe@[e]) is None,
        decreases n + 1 - k,
    {
        let mut c: usize = 0;
        while c < conds.len()
            invariant
                n < usize::MAX,
                k <= n,
                c <= conds@.len(),
                forall|c: int| 0 <= c < conds@.len() ==> rank(#[trigger] conds@[c].source) <= n,
                linked(conds@, effs@, store@, ofc@, ofe@),
                forall|x: int| 0 <= x < conds@.len() ==> ((#[trigger] ofc@[x]) is Some <==> (!ignored@.contains(x as CondId)
                    && (rank(conds@[x].source) < k || (rank(conds@[x].source) == k && x < c)))),
                forall|e: int| 0 <= e < effs@.len() ==> (#[trigger] ofe@[e]) is None,
            decreases conds@.len() - c,
        {
            let r = rank_exec(conds[c].source);
            if r == k && !contains_id(ignored, c) {
                let t = store.len();
                let ghost st0 = store@;
                let ghost ofc0 = ofc@;
                assert(ofc0[c as int] is None);
                ofc.set(c, Some(t));
                store.push(Transition::Cond(c));
                proof {
                    assert forall|t2: int| 0 <= t2 < st0.len() implies (#[trigger] st0[t2]) != Transition::Cond(c) by {
                        assert(match st0[t2] {
                            Transition::Cond(c3) => c3 < conds@.len() && ofc0[c3 as int] == Some(t2 as TransitionId),
                            Transition::Eff(e3) => e3 < effs@.len() && ofe@[e3 as int] == Some(t2 as TransitionId),
                            Transition::CondEff(c3, e3) => c3 < conds@.len() && e3 < effs@.len() && ofc0[c3 as int] == Some(t2 as TransitionId)
                                && ofe@[e3 as int] == Some(t2 as TransitionId) && compatible(conds@[c3 as int], effs@[e3 as int])
                                && conds@[c3 as int].source is Some,
                        });
                    }
                    assert forall|t2: int| 0 <= t2 < store@.len() implies match #[trigger] store@[t2] {
                        Transition::Cond(c3) => c3 < conds@.len() && ofc@[c3 as int] == Some(t2 as TransitionId),
                        Transition::Eff(e3) => e3 < effs@.len() && ofe@[e3 as int] == Some(t2 as TransitionId),
                        Transition::CondEff(c3, e3) => c3 < conds@.len() && e3 < effs@.len() && ofc@[c3 as int] == Some(t2 as TransitionId)
                            && ofe@[e3 as int] == Some(t2 as TransitionId) && compatible(conds@[c3 as int], effs@[e3 as int])
                            && conds@[c3 as int].source is Some,
                    } by {
                        if t2 < st0.len() {
                            assert(store@[t2] == st0[t2]);
                            assert(match st0[t2] {
                                Transition::Cond(c3) => c3 < conds@.len() && ofc0[c3 as int] == Some(t2 as TransitionId),
                                Transition::Eff(e3) => e3 < effs@.len() && ofe@[e3 as int] == Some(t2 as TransitionId),
                                Transition::CondEff(c3, e3) => c3 < conds@.len() && e3 < effs@.len() && ofc0[c3 as int] == Some(t2 as TransitionId)
                                    && ofe@[e3 as int] == Some(t2 as TransitionId) && compatible(conds@[c3 as int], effs@[e3 as int])
                                    && conds@[c3 as int].source is Some,
                            });
                        }
                    }
                    assert forall|x: int| 0 <= x < ofc@.len() && (#[trigger] ofc@[x]) is Some implies ofc@[x]->0 < store@.len() && (
                        store@[ofc@[x]->0 as int] == Transition::Cond(x as CondId)
                        || (store@[ofc@[x]->0 as int] matches Transition::CondEff(c2, _) && c2 == x)) by {
                        if x != c {
                            assert(ofc@[x] == ofc0[x]);
                            assert(store@[ofc0[x]->0 as int] == st0[ofc0[x]->0 as int]);
                        }
                    }
                }
            }
            c = c + 1;
        }
        k = k + 1;
    }
    (store, ofc, ofe)
}

/// Every effect transition of a task has no compatible condition that is not ignored.
pub open spec fn effects_alone(conds: Seq<Condition>, effs: Seq<Effect>, store: Seq<Transition>, ignored: Seq<CondId>) -> bool {
    forall|t: int, c: int| 0 <= t < store.len() && 0 <= c < conds.len() && (#[trigger] store[t] matches Transition::Eff(e) && e < effs.len()
        && effs[e as int].source is Some) && !ignored.contains(c as CondId) ==> !compatible(#[trigger] conds[c], effs[store[t]->Eff_0 as int])
}

/// One transition per effect that is not ignored, by source then index: the transition of
/// the compatible condition of its task when there is one, else a new one.
fn effects_pass(
    conds: &[Condition],
    effs: &[Effect],
    cond_ignored: &[CondId],
    eff_ignored: &[EffectId],
    n: usize,
    store: &mut Vec<Transition>,
    ofc: &Vec<Option<TransitionId>>,
    ofe: &mut Vec<Option<TransitionId>>,
)
    requires
        n < usize::MAX,
        forall|e: int| 0 <= e < effs@.len() ==> rank(#[trigger] effs@[e].source) <= n,
        linked(conds@, effs@, old(store)@, ofc@, old(ofe)@),
        forall|c: int| 0 <= c < conds@.len() ==> ((#[trigger] ofc@[c]) is Some <==> !cond_ignored@.contains(c as CondId)),
        forall|e: int| 0 <= e < effs@.len() ==> (#[trigger] old(ofe)@[e]) is None,
        forall|e: int, c1: int, c2: int| 0 <= e < effs@.len() && 0 <= c1 < conds@.len() && 0 <= c2 < conds@.len()
            && !cond_ignored@.contains(c1 as CondId) && !cond_ignored@.contains(c2 as CondId)
            && compatible(#[trigger] conds@[c1], #[trigger] effs@[e]) && compatible(#[trigger] conds@[c2], effs@[e]) ==> c1 == c2,
    ensures
        linked(conds@, effs@, final(store)@, ofc@, final(ofe)@),
        forall|e: int| 0 <= e < effs@.len() ==> ((#[trigger] final(ofe)@[e]) is Some <==> !eff_ignored@.contains(e as EffectId)),
        effects_alone(conds@, effs@, final(store)@, cond_ignored@),
{
    assert(effects_alone(conds@, effs@, store@, cond_ignored@));
    let mut k: usize = 0;
    while k <= n
        invariant
            n < usize::MAX,
            k <= n + 1,
            forall|e: int| 0 <= e < effs@.len() ==> rank(#[trigger] effs@[e].source) <= n,
            linked(conds@, effs@, store@, ofc@, ofe@),
            forall|c: int| 0 <= c < conds@.len() ==> ((#[trigger] ofc@[c]) is Some <==> !cond_ignored@.contains(c as CondId)),
            forall|e: int, c1: int, c2: int| 0 <= e < effs@.len() && 0 <= c1 < conds@.len() && 0 <= c2 < conds@.len()
                && !cond_ignored@.contains(c1 as CondId) && !cond_ignored@.contains(c2 as CondId)
                && compatible(#[trigger] conds@[c1], #[trigger] effs@[e]) && compatible(#[trigger] conds@[c2], effs@[e]) ==> c1 == c2,
            forall|e: int| 0 <= e < effs@.len() ==> ((#[trigger] ofe@[e]) is Some <==> (!eff_ignored@.contains(e as EffectId)
                && rank(effs@[e].source) < k)),
            effects_alone(conds@, effs@, store@, cond_ignored@),
        decreases n + 1 - k,
    {
        let mut e: usize = 0;
        while e < effs.len()
            invariant
                n < usize::MAX,
                k <= n,
                e <= effs@.len(),
                forall|e: int| 0 <= e < effs@.len() ==> rank(#[trigger] effs@[e].source) <= n,
                linked(conds@, effs@, store@, ofc@, ofe@),
                forall|c: int| 0 <= c < conds@.len() ==> ((#[trigger] ofc@[c]) is Some <==> !cond_ignored@.contains(c as CondId)),
                forall|e: int, c1: int, c2: int| 0 <= e < effs@.len() && 0 <= c1 < conds@.len() && 0 <= c2 < conds@.len()
                    && !cond_ignored@.contains(c1 as CondId) && !cond_ignored@.contains(c2 as CondId)
                    && compatible(#[trigger] conds@[c1], #[trigger] effs@[e]) && compatible(#[trigger] conds@[c2], effs@[e]) ==> c1 == c2,
                forall|x: int| 0 <= x < effs@.len() ==> ((#[trigger] ofe@[x]) is Some <==> (!eff_ignored@.contains(x as EffectId)
                    && (rank(effs@[x].source) < k || (rank(effs@[x].source) == k && x < e)))),
                effects_alone(conds@, effs@, store@, cond_ignored@),
            decreases effs@.len() - e,
        {
            let r = rank_exec(effs[e].source);
            if r == k && !contains_id(eff_ignored, e) {
                let ghost ofe_e0 = ofe@;
                let mut found = false;
                let ghost mut matched: int = 0;
                if k > 0 {
                    let mut c: usize = 0;
                    while c < conds.len()
                        invariant
                            c <= conds@.len(),
                            e < effs@.len(),
                            effs@[e as int].source is Some,
                            linked(conds@, effs@, store@, ofc@, ofe@),
                            forall|c: int| 0 <= c < conds@.len() ==> ((#[trigger] ofc@[c]) is Some <==> !cond_ignored@.contains(c as CondId)),
                            forall|e: int, c1: int, c2: int| 0 <= e < effs@.len() && 0 <= c1 < conds@.len() && 0 <= c2 < conds@.len()
                                && !cond_ignored@.contains(c1 as CondId) && !cond_ignored@.contains(c2 as CondId)
                                && compatible(#[trigger] conds@[c1], #[trigger] effs@[e]) && compatible(#[trigger] conds@[c2], effs@[e]) ==> c1 == c2,
                            forall|x: int| 0 <= x < effs@.len() && x != e ==> #[trigger] ofe@[x] == ofe_e0[x],
                            ofe_e0[e as int] is None,
                            ofe@.len() == ofe_e0.len(),
                            !found ==> ofe@[e as int] is None && forall|c2: int| 0 <= c2 < c && !cond_ignored@.contains(c2 as CondId)
                                ==> !compatible(#[trigger] conds@[c2], effs@[e as int]),
                            found ==> ofe@[e as int] is Some && 0 <= matched < c && !cond_ignored@.contains(matched as CondId)
                                && compatible(conds@[matched], effs@[e as int]),
                            effects_alone(conds@, effs@, store@, cond_ignored@),
                        decreases conds@.len() - c,
                    {
                        if !contains_id(cond_ignored, c) && compatible_exec(&conds[c], &effs[e]) {
                            proof {
                                if found {
                                    assert(compatible(conds@[c as int], effs@[e as int]));
                                    assert(matched == c as int);
                                }
                            }
                            assert(ofc@[c as int] is Some);
                            let t = ofc[c].unwrap();
                            let ghost st0 = store@;
                            let ghost ofe0 = ofe@;
                            assert(t < st0.len());
                            ofe.set(e, Some(t));
                            store.set(t, Transition::CondEff(c, e));
                            proof {
                                matched = c as int;
                                assert(ofe0[e as int] is None);
                                // the transition held condition c, alone or with an effect compatible with it
                                let old_tr = st0[t as int];
                                assert(old_tr == Transition::Cond(c) || (old_tr matches Transition::CondEff(c2, _) && c2 == c));
                                assert(match #[trigger] st0[(t as int)] {
                        Transition::Cond(c3) => c3 < conds@.len() && ofc@[c3 as int] == Some(t),
                        Transition::Eff(e3) => e3 < effs@.len() && ofe0[e3 as int] == Some(t),
                        Transition::CondEff(c3, e3) => c3 < conds@.len() && e3 < effs@.len() && ofc@[c3 as int] == Some(t)
                            && ofe0[e3 as int] == Some(t) && compatible(conds@[c3 as int], effs@[e3 as int])
                            && conds@[c3 as int].source is Some,
                    });
                                assert forall|t2: int| 0 <= t2 < store@.len() implies match #[trigger] store@[t2] {
                        Transition::Cond(c3) => c3 < conds@.len() && ofc@[c3 as int] == Some(t2 as TransitionId),
                        Transition::Eff(e3) => e3 < effs@.len() && ofe@[e3 as int] == Some(t2 as TransitionId),
                        Transition::CondEff(c3, e3) => c3 < conds@.len() && e3 < effs@.len() && ofc@[c3 as int] == Some(t2 as TransitionId)
                            && ofe@[e3 as int] == Some(t2 as TransitionId) && compatible(conds@[c3 as int], effs@[e3 as int])
                            && conds@[c3 as int].source is Some,
                    } by {
                                    if t2 != t {
                                        assert(store@[t2] == st0[t2]);
                                        assert(match st0[t2] {
                        Transition::Cond(c3) => c3 < conds@.len() && ofc@[c3 as int] == Some(t2 as TransitionId),
                        Transition::Eff(e3) => e3 < effs@.len() && ofe0[e3 as int] == Some(t2 as TransitionId),
                        Transition::CondEff(c3, e3) => c3 < conds@.len() && e3 < effs@.len() && ofc@[c3 as int] == Some(t2 as TransitionId)
                            && ofe0[e3 as int] == Some(t2 as TransitionId) && compatible(conds@[c3 as int], effs@[e3 as int])
                            && conds@[c3 as int].source is Some,
                    });
                                        if let Transition::Eff(e3) = st0[t2] {
                                            assert(e3 != e);
                                        }
                                        if let Transition::CondEff(c3, e3) = st0[t2] {
                                            assert(e3 != e);
                                        }
                                    }
                                }
                                assert forall|x: int| 0 <= x < ofe@.len() && (#[trigger] ofe@[x]) is Some implies ofe@[x]->0 < store@.len() && (
                                    store@[ofe@[x]->0 as int] == Transition::Eff(x as EffectId)
                                    || (store@[ofe@[x]->0 as int] matches Transition::CondEff(c2, _) && c2 < conds@.len()
                                        && compatible(conds@[c2 as int], effs@[x]))) by {
                                    if x != e {
                                        assert(ofe@[x] == ofe0[x]);
                                        let t3 = ofe0[x]->0;
                                        if t3 == t {
                                            if let Transition::CondEff(c4, e4) = old_tr {
                                                assert(c4 == c);
                                            }
                                        } else {
                                            assert(store@[t3 as int] == st0[t3 as int]);
                                        }
                                    }
                                }
                                assert forall|x: int| 0 <= x < ofc@.len() && (#[trigger] ofc@[x]) is Some implies ofc@[x]->0 < store@.len() && (
                                    store@[ofc@[x]->0 as int] == Transition::Cond(x as CondId)
                                    || (store@[ofc@[x]->0 as int] matches Transition::CondEff(c2, _) && c2 == x)) by {
                                    let t3 = ofc@[x]->0;
                                    if t3 != t {
                                        assert(store@[t3 as int] == st0[t3 as int]);
                                    } else {
                                        assert(st0[t as int] == Transition::Cond(x as CondId)
                                            || (st0[t as int] matches Transition::CondEff(c2, _) && c2 == x));
                                    }
                                }
                                assert forall|t2: int, c2: int| 0 <= t2 < store@.len() && 0 <= c2 < conds@.len() && (#[trigger] store@[t2] matches Transition::Eff(e2) && e2 < effs@.len()
                                    && effs@[e2 as int].source is Some) && !cond_ignored@.contains(c2 as CondId) implies !compatible(#[trigger] conds@[c2], effs@[store@[t2]->Eff_0 as int]) by {
                                    assert(t2 != t);
                                    assert(store@[t2] == st0[t2]);
                                }
                            }
                            found = true;
                        }
                        c = c + 1;
                    }
                }
                if !found {
                    let t = store.len();
                    let ghost st0 = store@;
                    let ghost ofe0 = ofe@;
                    ofe.set(e, Some(t));
                    store.push(Transition::Eff(e));
                    proof {
                        assert forall|t2: int| 0 <= t2 < store@.len() implies match #[trigger] store@[t2] {
                        Transition::Cond(c3) => c3 < conds@.len() && ofc@[c3 as int] == Some(t2 as TransitionId),
                        Transition::Eff(e3) => e3 < effs@.len() && ofe@[e3 as int] == Some(t2 as TransitionId),
                        Transition::CondEff(c3, e3) => c3 < conds@.len() && e3 < effs@.len() && ofc@[c3 as int] == Some(t2 as TransitionId)
                            && ofe@[e3 as int] == Some(t2 as TransitionId) && compatible(conds@[c3 as int], effs@[e3 as int])
                            && conds@[c3 as int].source is Some,
                    } by {
                            if t2 < st0.len() {
                                assert(store@[t2] == st0[t2]);
                                assert(match st0[t2] {
                        Transition::Cond(c3) => c3 < conds@.len() && ofc@[c3 as int] == Some(t2 as TransitionId),
                        Transition::Eff(e3) => e3 < effs@.len() && ofe0[e3 as int] == Some(t2 as TransitionId),
                        Transition::CondEff(c3, e3) => c3 < conds@.len() && e3 < effs@.len() && ofc@[c3 as int] == Some(t2 as TransitionId)
                            && ofe0[e3 as int] == Some(t2 as TransitionId) && compatible(conds@[c3 as int], effs@[e3 as int])
                            && conds@[c3 as int].source is Some,
                    });
                                if let Transition::Eff(e3) = st0[t2] {
                                    assert(e3 != e);
                                }
                                if let Transition::CondEff(c3, e3) = st0[t2] {
                                    assert(e3 != e);
                                }
                            }
                        }
                        assert forall|x: int| 0 <= x < ofe@.len() && (#[trigger] ofe@[x]) is Some implies ofe@[x]->0 < store@.len() && (
                            store@[ofe@[x]->0 as int] == Transition::Eff(x as EffectId)
                            || (store@[ofe@[x]->0 as int] matches Transition::CondEff(c2, _) && c2 < conds@.len()
                                && compatible(conds@[c2 as int], effs@[x]))) by {
                            if x != e {
                                assert(ofe@[x] == ofe0[x]);
                                assert(store@[ofe0[x]->0 as int] == st0[ofe0[x]->0 as int]);
                            }
                        }
                        assert forall|x: int| 0 <= x < ofc@.len() && (#[trigger] ofc@[x]) is Some implies ofc@[x]->0 < store@.len() && (
                            store@[ofc@[x]->0 as int] == Transition::Cond(x as CondId)
                            || (store@[ofc@[x]->0 as int] matches Transition::CondEff(c2, _) && c2 == x)) by {
                            assert(store@[ofc@[x]->0 as int] == st0[ofc@[x]->0 as int]);
                        }
                        assert forall|t2: int, c2: int| 0 <= t2 < store@.len() && 0 <= c2 < conds@.len() && (#[trigger] store@[t2] matches Transition::Eff(e2) && e2 < effs@.len()
                            && effs@[e2 as int].source is Some) && !cond_ignored@.contains(c2 as CondId) implies !compatible(#[trigger] conds@[c2], effs@[store@[t2]->Eff_0 as int]) by {
                            if t2 < st0.len() {
                                assert(store@[t2] == st0[t2]);
                            } else if effs@[e as int].source is Some {
                                assert(k > 0);
                            }
                        }
                    }
                }
            }
            e = e + 1;
        }
        k = k + 1;
    }
}

/// The transitions of `store` whose source is `src`, in increasing order.
fn source_list(conds: &[Condition], effs: &[Effect], store: &Vec<Transition>, src: Source) -> (res: Vec<TransitionId>)
    requires
        forall|t: int| 0 <= t < store@.len() ==> match #[trigger] store@[t] {
            Transition::Cond(c) => c < conds@.len(),
            Transition::Eff(e) => e < effs@.len(),
            Transition::CondEff(c, e) => c < conds@.len() && e < effs@.len(),
        },
    ensures
        forall|x: TransitionId| #[trigger] res@.contains(x) <==> (x < store@.len() && trans_source(conds@, effs@, store@[x as int]) == src),
        forall|a: int, b: int| 0 <= a < b < res@.len() ==> #[trigger] res@[a] < #[trigger] res@[b],
{
    let mut res: Vec<TransitionId> = Vec::new();
    let mut t: usize = 0;
    while t < store.len()
        invariant
            t <= store@.len(),
            forall|t: int| 0 <= t < store@.len() ==> match #[trigger] store@[t] {
                Transition::Cond(c) => c < conds@.len(),
                Transition::Eff(e) => e < effs@.len(),
                Transition::CondEff(c, e) => c < conds@.len() && e < effs@.len(),
            },
            forall|x: TransitionId| #[trigger] res@.contains(x) <==> (x < t && trans_source(conds@, effs@, store@[x as int]) == src),
            forall|a: int, b: int| 0 <= a < b < res@.len() ==> #[trigger] res@[a] < #[trigger] res@[b],
            forall|a: int| 0 <= a < res@.len() ==> #[trigger] res@[a] < t,
        decreases store@.len() - t,
    {
        let tr = store[t];
        let s = match tr {
            Transition::Cond(c) => conds[c].source,
            Transition::Eff(e) => effs[e].source,
            Transition::CondEff(c, _) => conds[c].source,
        };
        let ghost r0 = res@;
        if same_source(s, src) {
            res.push(t);
        }
        proof {
            assert forall|x: TransitionId| #[trigger] res@.contains(x) <==> (x < t + 1 && trans_source(conds@, effs@, store@[x as int]) == src) by {
                if s == src {
                    vstd::seq_lib::lemma_seq_contains_after_push(r0, t, x);
                }
                if x == t && s == src {
                    assert(res@[res@.len() - 1] == x);
                }
                if res@.contains(x) && x == t && s != src {
                    let w = choose|w: int| 0 <= w < res@.len() && res@[w] == x;
                    assert(r0[w] < t);
                }
            }
        }
        t = t + 1;
    }
    res
}

/// Stands for the literal that always holds: the presence of recovered default effects.
pub const LIT_TRUE: LitId = 0;

/// A fluent: the ranges of its parameters and of its value.
pub struct Fluent {
    pub params: Vec<Segment>,
    pub ret: Segment,
}

/// The values of a segment, in increasing order.
pub open spec fn seg_values(s: Segment) -> Seq<IntCst> {
    Seq::new(if s.first <= s.last { (s.last - s.first + 1) as nat } else { 0 }, |k: int| (s.first + k) as IntCst)
}

/// Each value of `vs`, in order, followed by each tuple of `rest`, in order.
pub open spec fn with_prefix(vs: Seq<IntCst>, rest: Seq<Seq<IntCst>>) -> Seq<Seq<IntCst>>
    decreases vs.len(),
{
    if vs.len() == 0 {
        seq![]
    } else {
        with_prefix(vs.drop_last(), rest) + rest.map_values(|r: Seq<IntCst>| seq![vs.last()] + r)
    }
}

/// The points of a box, in lexicographic order (the last dimension varies fastest).
pub open spec fn box_points(segs: Seq<Segment>) -> Seq<Seq<IntCst>>
    decreases segs.len(),
{
    if segs.len() == 0 {
        seq![seq![]]
    } else {
        with_prefix(seg_values(segs[0]), box_points(segs.drop_first()))
    }
}

/// The terms of a ground argument tuple.
pub open spec fn cst_terms(p: Seq<IntCst>) -> Seq<IntTerm> {
    p.map_values(|v: IntCst| IntTerm::Cst(v))
}

/// A fluent some ignored condition or effect is on.
pub open spec fn ignored_fluent(conds: Seq<Condition>, effs: Seq<Effect>, cign: Seq<CondId>, eign: Seq<EffectId>, f: usize) -> bool {
    ||| exists|k: int| 0 <= k < cign.len() && #[trigger] conds[cign[k] as int].state_var.fluent == f
    ||| exists|k: int| 0 <= k < eign.len() && #[trigger] effs[eign[k] as int].state_var.fluent == f
}

/// An initial effect that is not ignored sets fluent `f` on the ground arguments `p`.
pub open spec fn known_ground(effs: Seq<Effect>, eign: Seq<EffectId>, f: usize, p: Seq<IntCst>) -> bool {
    exists|e: int| 0 <= e < effs.len() && !eign.contains(e as EffectId) && (#[trigger] effs[e]).source is None
        && effs[e].state_var.fluent == f && effs[e].state_var.args@ == cst_terms(p)
}

/// The points of `pts` that no initial effect sets on fluent `f`, with the fluent.
pub open spec fn fluent_defaults(effs: Seq<Effect>, eign: Seq<EffectId>, f: usize, pts: Seq<Seq<IntCst>>) -> Seq<(usize, Seq<IntCst>)>
    decreases pts.len(),
{
    if pts.len() == 0 {
        seq![]
    } else if known_ground(effs, eign, f, pts.last()) {
        fluent_defaults(effs, eign, f, pts.drop_last())
    } else {
        fluent_defaults(effs, eign, f, pts.drop_last()).push((f, pts.last()))
    }
}

/// The ground state variables that get a default initial effect, over the fluents of index
/// below `n` that no ignored condition or effect is on: every point of the fluent's parameter
/// box that no initial effect sets.
pub open spec fn recovered_tuples(
    conds: Seq<Condition>,
    effs: Seq<Effect>,
    cign: Seq<CondId>,
    eign: Seq<EffectId>,
    fluents: Seq<Fluent>,
    n: nat,
) -> Seq<(usize, Seq<IntCst>)>
    decreases n,
{
    if n == 0 {
        seq![]
    } else {
        recovered_tuples(conds, effs, cign, eign, fluents, (n - 1) as nat) + if ignored_fluent(conds, effs, cign, eign, (n - 1) as usize) {
            seq![]
        } else {
            fluent_defaults(effs, eign, (n - 1) as usize, box_points(fluents[n - 1].params@))
        }
    }
}

/// The default initial effect of a ground state variable: always present, it gives the fluent
/// the first value of its range.
pub open spec fn is_default_effect(e: Effect, t: (usize, Seq<IntCst>), fluents: Seq<Fluent>) -> bool {
    &&& e.source is None
    &&& e.state_var.fluent == t.0
    &&& e.state_var.args@ == cst_terms(t.1)
    &&& e.prez == LIT_TRUE
    &&& e.op == IntTerm::Cst(fluents[t.0 as int].ret.first)
}

fn copy_ints(v: &Vec<IntCst>) -> (res: Vec<IntCst>)
    ensures
        res@ == v@,
{
    let mut res: Vec<IntCst> = Vec::new();
    let mut i: usize = 0;
    while i < v.len()
        invariant
            i <= v@.len(),
            res@ == v@.subrange(0, i as int),
        decreases v@.len() - i,
    {
        res.push(v[i]);
        assert(res@ =~= v@.subrange(0, i + 1));
        i = i + 1;
    }
    assert(v@.subrange(0, i as int) =~= v@);
    res
}

/// Pushes, after `prefix`, each point of the box of the dimensions from `d` on.
fn push_box_points(segs: &[Segment], d: usize, prefix: &mut Vec<IntCst>, out: &mut Vec<Vec<IntCst>>)
    requires
        d <= segs@.len(),
    ensures
        final(prefix)@ == old(prefix)@,
        final(out)@.map_values(|v: Vec<IntCst>| v@) == old(out)@.map_values(|v: Vec<IntCst>| v@)
            + box_points(segs@.subrange(d as int, segs@.len() as int)).map_values(|p: Seq<IntCst>| old(prefix)@ + p),
    decreases segs@.len() - d,
{
    let ghost o0 = out@.map_values(|v: Vec<IntCst>| v@);
    let ghost p0 = prefix@;
    if d == segs.len() {
        let c = copy_ints(prefix);
        out.push(c);
        proof {
            assert(segs@.subrange(d as int, segs@.len() as int) =~= Seq::<Segment>::empty());
            assert(box_points(Seq::<Segment>::empty()) == seq![Seq::<IntCst>::empty()]);
            assert(p0 + Seq::<IntCst>::empty() =~= p0);
            assert(out@.map_values(|v: Vec<IntCst>| v@) =~= o0 + seq![Seq::<IntCst>::empty()].map_values(|p: Seq<IntCst>| p0 + p));
        }
        return;
    }
    let s = segs[d];
    let ghost rest = box_points(segs@.subrange(d + 1, segs@.len() as int));
    let ghost vs = seg_values(s);
    proof {
        assert(segs@.subrange(d as int, segs@.len() as int).drop_first() =~= segs@.subrange(d + 1, segs@.len() as int));
        assert(segs@.subrange(d as int, segs@.len() as int)[0] == s);
    }
    if s.first <= s.last {
        let mut v: i64 = s.first as i64;
        while v <= s.last as i64
            invariant
                d < segs@.len(),
                d < segs.len(),
                s == segs@[d as int],
                s.first <= s.last,
                s.first <= v <= s.last as int + 1,
                prefix@ == p0,
                vs == seg_values(s),
                rest == box_points(segs@.subrange(d + 1, segs@.len() as int)),
                out@.map_values(|v: Vec<IntCst>| v@) == o0 + with_prefix(vs.subrange(0, v - s.first), rest).map_values(
                    |p: Seq<IntCst>| p0 + p,
                ),
            decreases s.last as int + 1 - v,
        {
            let ghost o1 = out@.map_values(|v: Vec<IntCst>| v@);
            let x: IntCst = v as IntCst;
            prefix.push(x);
            push_box_points(segs, d + 1, prefix, out);
            prefix.pop();
            proof {
                let k = v - s.first;
                assert(vs[k] == x);
                let sub1 = vs.subrange(0, k + 1);
                assert(sub1.drop_last() =~= vs.subrange(0, k));
                assert(sub1.last() == x);
                let added = rest.map_values(|r: Seq<IntCst>| p0.push(x) + r);
                let via = rest.map_values(|r: Seq<IntCst>| seq![x] + r).map_values(|p: Seq<IntCst>| p0 + p);
                assert forall|j: int| 0 <= j < rest.len() implies added[j] == via[j] by {
                    assert(p0.push(x) + rest[j] =~= p0 + (seq![x] + rest[j]));
                }
                assert(added =~= via);
                let before = with_prefix(vs.subrange(0, k), rest);
                assert((before + rest.map_values(|r: Seq<IntCst>| seq![x] + r)).map_values(|p: Seq<IntCst>| p0 + p)
                    =~= before.map_values(|p: Seq<IntCst>| p0 + p) + via);
                assert(out@.map_values(|v: Vec<IntCst>| v@) =~= o0 + with_prefix(vs.subrange(0, k + 1), rest).map_values(
                    |p: Seq<IntCst>| p0 + p,
                ));
            }
            v = v + 1;
        }
        proof {
            assert(vs.subrange(0, v - s.first) =~= vs);
        }
    } else {
        proof {
            assert(vs.len() == 0);
            assert(with_prefix(vs, rest) =~= Seq::<Seq<IntCst>>::empty());
            assert(out@.map_values(|v: Vec<IntCst>| v@) =~= o0 + with_prefix(vs, rest).map_values(|p: Seq<IntCst>| p0 + p));
        }
    }
}

fn ignored_fluent_exec(conds: &[Condition], effs: &[Effect], cign: &[CondId], eign: &[EffectId], f: usize) -> (res: bool)
    requires
        forall|k: int| 0 <= k < cign@.len() ==> #[trigger] cign@[k] < conds@.len(),
        forall|k: int| 0 <= k < eign@.len() ==> #[trigger] eign@[k] < effs@.len(),
    ensures
        res == ignored_fluent(conds@, effs@, cign@, eign@, f),
{
    let mut k: usize = 0;
    while k < cign.len()
        invariant
            k <= cign@.len(),
            forall|k: int| 0 <= k < cign@.len() ==> #[trigger] cign@[k] < conds@.len(),
            forall|j: int| 0 <= j < k ==> #[trigger] conds@[cign@[j] as int].state_var.fluent != f,
        decreases cign@.len() - k,
    {
        if conds[cign[k]].state_var.fluent == f {
            assert(conds@[cign@[k as int] as int].state_var.fluent == f);
            return true;
        }
        k = k + 1;
    }
    let mut j: usize = 0;
    while j < eign.len()
        invariant
            j <= eign@.len(),
            forall|k: int| 0 <= k < eign@.len() ==> #[trigger] eign@[k] < effs@.len(),
            forall|k: int| 0 <= k < cign@.len() ==> #[trigger] conds@[cign@[k] as int].state_var.fluent != f,
            forall|i: int| 0 <= i < j ==> #[trigger] effs@[eign@[i] as int].state_var.fluent != f,
        decreases eign@.len() - j,
    {
        if effs[eign[j]].state_var.fluent == f {
            assert(effs@[eign@[j as int] as int].state_var.fluent == f);
            return true;
        }
        j = j + 1;
    }
    false
}

fn args_are(args: &[IntTerm], p: &[IntCst]) -> (res: bool)
    ensures
        res == (args@ == cst_terms(p@)),
{
    if args.len() != p.len() {
        return false;
    }
    let mut k: usize = 0;
    while k < args.len()
        invariant
            k <= args@.len() == p@.len(),
            forall|j: int| 0 <= j < k ==> args@[j] == IntTerm::Cst(p@[j]),
        decreases args@.len() - k,
    {
        match args[k] {
            IntTerm::Cst(c) => {
                if c != p[k] {
                    assert(args@[k as int] != cst_terms(p@)[k as int]);
                    return false;
                }
            },
            IntTerm::Var(_) => {
                assert(args@[k as int] != cst_terms(p@)[k as int]);
                return false;
            },
        }
        k = k + 1;
    }
    assert(args@ =~= cst_terms(p@));
    true
}

fn known_ground_exec(effs: &[Effect], eign: &[EffectId], f: usize, p: &[IntCst]) -> (res: bool)
    ensures
        res == known_ground(effs@, eign@, f, p@),
{
    let mut e: usize = 0;
    while e < effs.len()
        invariant
            e <= effs@.len(),
            forall|j: int| 0 <= j < e ==> !(!eign@.contains(j as EffectId) && (#[trigger] effs@[j]).source is None
                && effs@[j].state_var.fluent == f && effs@[j].state_var.args@ == cst_terms(p@)),
        decreases effs@.len() - e,
    {
        let ef = &effs[e];
        if ef.source.is_none() && ef.state_var.fluent == f && !contains_id(eign, e) && args_are(ef.state_var.args.as_slice(), p) {
            assert(effs@[e as int].source is None && effs@[e as int].state_var.args@ == cst_terms(p@));
            return true;
        }
        e = e + 1;
    }
    false
}

fn default_effect(f: usize, p: &Vec<IntCst>, value: IntCst) -> (res: Effect)
    ensures
        res.source is None,
        res.state_var.fluent == f,
        res.state_var.args@ == cst_terms(p@),
        res.prez == LIT_TRUE,
        res.op == IntTerm::Cst(value),
{
    let mut args: Vec<IntTerm> = Vec::new();
    let mut k: usize = 0;
    while k < p.len()
        invariant
            k <= p@.len(),
            args@ == cst_terms(p@.subrange(0, k as int)),
        decreases p@.len() - k,
    {
        args.push(IntTerm::Cst(p[k]));
        assert(args@ =~= cst_terms(p@.subrange(0, k + 1)));
        k = k + 1;
    }
    assert(p@.subrange(0, k as int) =~= p@);
    Effect { source: None, state_var: StateVar { fluent: f, args }, prez: LIT_TRUE, op: IntTerm::Cst(value) }
}

/// The default initial effects to recover, in order.
fn recovered_defaults(
    conds: &[Condition],
    effs: &[Effect],
    fluents: &[Fluent],
    cign: &[CondId],
    eign: &[EffectId],
) -> (res: Vec<Effect>)
    requires
        forall|k: int| 0 <= k < cign@.len() ==> #[trigger] cign@[k] < conds@.len(),
        forall|k: int| 0 <= k < eign@.len() ==> #[trigger] eign@[k] < effs@.len(),
    ensures
        res@.len() == recovered_tuples(conds@, effs@, cign@, eign@, fluents@, fluents@.len()).len(),
        forall|k: int| 0 <= k < res@.len() ==> is_default_effect(#[trigger] res@[k],
            recovered_tuples(conds@, effs@, cign@, eign@, fluents@, fluents@.len())[k], fluents@),
{
    let mut res: Vec<Effect> = Vec::new();
    let mut f: usize = 0;
    while f < fluents.len()
        invariant
            f <= fluents@.len(),
            forall|k: int| 0 <= k < cign@.len() ==> #[trigger] cign@[k] < conds@.len(),
            forall|k: int| 0 <= k < eign@.len() ==> #[trigger] eign@[k] < effs@.len(),
            res@.len() == recovered_tuples(conds@, effs@, cign@, eign@, fluents@, f as nat).len(),
            forall|k: int| 0 <= k < res@.len() ==> is_default_effect(#[trigger] res@[k],
                recovered_tuples(conds@, effs@, cign@, eign@, fluents@, f as nat)[k], fluents@),
        decreases fluents@.len() - f,
    {
        let ghost r0 = recovered_tuples(conds@, effs@, cign@, eign@, fluents@, f as nat);
        if !ignored_fluent_exec(conds, effs, cign, eign, f) {
            let mut pts: Vec<Vec<IntCst>> = Vec::new();
            let mut prefix: Vec<IntCst> = Vec::new();
            push_box_points(fluents[f].params.as_slice(), 0, &mut prefix, &mut pts);
            let ghost pv = box_points(fluents@[f as int].params@);
            proof {
                assert(fluents@[f as int].params@.subrange(0, fluents@[f as int].params@.len() as int) =~= fluents@[f as int].params@);
                assert forall|j: int| 0 <= j < pv.len() implies Seq::<IntCst>::empty() + pv[j] == pv[j] by {
                    assert(Seq::<IntCst>::empty() + pv[j] =~= pv[j]);
                }
                assert(pts@.map_values(|v: Vec<IntCst>| v@) =~= pv);
            }
            let value = fluents[f].ret.first;
            let mut j: usize = 0;
            while j < pts.len()
                invariant
                    j <= pts@.len(),
                    f < fluents@.len(),
                    value == fluents@[f as int].ret.first,
                    pts@.map_values(|v: Vec<IntCst>| v@) == pv,
                    res@.len() == (r0 + fluent_defaults(effs@, eign@, f, pv.subrange(0, j as int))).len(),
                    forall|k: int| 0 <= k < res@.len() ==> is_default_effect(#[trigger] res@[k],
                        (r0 + fluent_defaults(effs@, eign@, f, pv.subrange(0, j as int)))[k], fluents@),
                decreases pts@.len() - j,
            {
                let p = &pts[j];
                proof {
                    assert(pv[j as int] == p@);
                    assert(pv.subrange(0, j + 1).drop_last() =~= pv.subrange(0, j as int));
                    assert(pv.subrange(0, j + 1).last() == p@);
                }
                let ghost before = r0 + fluent_defaults(effs@, eign@, f, pv.subrange(0, j as int));
                if !known_ground_exec(effs, eign, f, p.as_slice()) {
                    let e = default_effect(f, p, value);
                    let ghost res0 = res@;
                    res.push(e);
                    proof {
                        let after = r0 + fluent_defaults(effs@, eign@, f, pv.subrange(0, j + 1));
                        assert(after =~= before.push((f, p@)));
                        assert forall|k: int| 0 <= k < res@.len() implies is_default_effect(#[trigger] res@[k], after[k], fluents@) by {
                            if k < before.len() {
                                assert(res@[k] == res0[k]);
                                assert(is_default_effect(res0[k], before[k], fluents@));
                            }
                        }
                    }
                } else {
                    proof {
                        assert(r0 + fluent_defaults(effs@, eign@, f, pv.subrange(0, j + 1)) =~= before);
                    }
                }
                j = j + 1;
            }
            proof {
                assert(pv.subrange(0, j as int) =~= pv);
                assert(recovered_tuples(conds@, effs@, cign@, eign@, fluents@, (f + 1) as nat) == r0 + fluent_defaults(effs@, eign@, f, pv));
            }
        } else {
            proof {
                assert(recovered_tuples(conds@, effs@, cign@, eign@, fluents@, (f + 1) as nat) =~= r0);
            }
        }
        f = f + 1;
    }
    res
}

/// Appends the recovered effects, each with an effect transition of its own.
fn append_recovered(
    conds: &[Condition],
    effects: &mut Vec<Effect>,
    rec: &mut Vec<Effect>,
    store: &mut Vec<Transition>,
    ofc: &Vec<Option<TransitionId>>,
    ofe: &mut Vec<Option<TransitionId>>,
    cign: &[CondId],
)
    requires
        linked(conds@, old(effects)@, old(store)@, ofc@, old(ofe)@),
        effects_alone(conds@, old(effects)@, old(store)@, cign@),
        forall|k: int| 0 <= k < old(rec)@.len() ==> (#[trigger] old(rec)@[k]).source is None,
    ensures
        final(effects)@ == old(effects)@ + old(rec)@,
        final(store)@.len() == old(store)@.len() + old(rec)@.len(),
        forall|t: int| 0 <= t < old(store)@.len() ==> #[trigger] final(store)@[t] == old(store)@[t],
        forall|k: int| 0 <= k < old(rec)@.len() ==> #[trigger] final(store)@[old(store)@.len() + k]
            == Transition::Eff((old(effects)@.len() + k) as EffectId),
        final(ofe)@.len() == old(ofe)@.len() + old(rec)@.len(),
        forall|e: int| 0 <= e < old(ofe)@.len() ==> #[trigger] final(ofe)@[e] == old(ofe)@[e],
        forall|k: int| 0 <= k < old(rec)@.len() ==> #[trigger] final(ofe)@[old(ofe)@.len() + k]
            == Some((old(store)@.len() + k) as TransitionId),
        linked(conds@, final(effects)@, final(store)@, ofc@, final(ofe)@),
        effects_alone(conds@, final(effects)@, final(store)@, cign@),
{
    let ghost e0 = effects@;
    let ghost s0 = store@;
    let ghost f0 = ofe@;
    let ghost r0 = rec@;
    let n0 = effects.len();
    let m = rec.len();
    effects.append(rec);
    let mut k: usize = 0;
    while k < m
        invariant
            k <= m,
            m == r0.len(),
            n0 + m == effects.len(),
            n0 == e0.len(),
            n0 == f0.len(),
            effects@ == e0 + r0,
            store@.len() == s0.len() + k,
            forall|t: int| 0 <= t < s0.len() ==> #[trigger] store@[t] == s0[t],
            forall|j: int| 0 <= j < k ==> #[trigger] store@[s0.len() + j] == Transition::Eff((n0 + j) as EffectId),
            ofe@.len() == f0.len() + k,
            forall|e: int| 0 <= e < f0.len() ==> #[trigger] ofe@[e] == f0[e],
            forall|j: int| 0 <= j < k ==> #[trigger] ofe@[f0.len() + j] == Some((s0.len() + j) as TransitionId),
        decreases m - k,
    {
        let t = store.len();
        store.push(Transition::Eff(n0 + k));
        ofe.push(Some(t));
        proof {
            assert(store@[s0.len() + k as int] == Transition::Eff((n0 + k) as EffectId));
            assert(ofe@[f0.len() + k as int] == Some((s0.len() + k) as TransitionId));
        }
        k = k + 1;
    }
    let sl = store.len();
    let el = effects.len();
    proof {
        let effs = effects@;
        assert(ofe@.len() == effs.len());
        assert(sl == store@.len() && el == effs.len());
        assert forall|c: int| 0 <= c < ofc@.len() && (#[trigger] ofc@[c]) is Some implies ofc@[c]->0 < store@.len() && (
            store@[ofc@[c]->0 as int] == Transition::Cond(c as CondId)
            || (store@[ofc@[c]->0 as int] matches Transition::CondEff(c2, _) && c2 == c)) by {
            assert(store@[ofc@[c]->0 as int] == s0[ofc@[c]->0 as int]);
        }
        assert forall|e: int| 0 <= e < ofe@.len() && (#[trigger] ofe@[e]) is Some implies ofe@[e]->0 < store@.len() && (
            store@[ofe@[e]->0 as int] == Transition::Eff(e as EffectId)
            || (store@[ofe@[e]->0 as int] matches Transition::CondEff(c2, _) && c2 < conds@.len() && compatible(conds@[c2 as int], effs[e]))) by {
            if e < f0.len() {
                assert(ofe@[e] == f0[e]);
                assert(store@[f0[e]->0 as int] == s0[f0[e]->0 as int]);
                assert(effs[e] == e0[e]);
            } else {
                let j = e - f0.len();
                assert(ofe@[f0.len() + j] == Some((s0.len() + j) as TransitionId));
                assert(store@[s0.len() + j] == Transition::Eff((n0 + j) as EffectId));
            }
        }
        assert forall|t: int| 0 <= t < store@.len() implies match #[trigger] store@[t] {
            Transition::Cond(c) => c < conds@.len() && ofc@[c as int] == Some(t as TransitionId),
            Transition::Eff(e) => e < effs.len() && ofe@[e as int] == Some(t as TransitionId),
            Transition::CondEff(c, e) => c < conds@.len() && e < effs.len() && ofc@[c as int] == Some(t as TransitionId)
                && ofe@[e as int] == Some(t as TransitionId) && compatible(conds@[c as int], effs[e as int])
                && conds@[c as int].source is Some,
        } by {
            if t < s0.len() {
                assert(store@[t] == s0[t]);
                assert(match s0[t] {
                    Transition::Cond(c) => c < conds@.len() && ofc@[c as int] == Some(t as TransitionId),
                    Transition::Eff(e) => e < e0.len() && f0[e as int] == Some(t as TransitionId),
                    Transition::CondEff(c, e) => c < conds@.len() && e < e0.len() && ofc@[c as int] == Some(t as TransitionId)
                        && f0[e as int] == Some(t as TransitionId) && compatible(conds@[c as int], e0[e as int])
                        && conds@[c as int].source is Some,
                });
                match s0[t] {
                    Transition::Eff(e) => {
                        assert(ofe@[e as int] == f0[e as int]);
                    },
                    Transition::CondEff(c, e) => {
                        assert(ofe@[e as int] == f0[e as int]);
                        assert(effs[e as int] == e0[e as int]);
                    },
                    _ => {},
                }
            } else {
                let j = t - s0.len();
                assert(store@[s0.len() + j] == Transition::Eff((n0 + j) as EffectId));
                assert(ofe@[f0.len() + j] == Some((s0.len() + j) as TransitionId));
            }
        }
        assert forall|t: int, c: int| 0 <= t < store@.len() && 0 <= c < conds@.len() && (#[trigger] store@[t] matches Transition::Eff(e) && e < effs.len()
            && effs[e as int].source is Some) && !cign@.contains(c as CondId) implies !compatible(#[trigger] conds@[c], effs[store@[t]->Eff_0 as int]) by {
            if t < s0.len() {
                assert(store@[t] == s0[t]);
                let e = s0[t]->Eff_0;
                assert(match s0[t] {
                    Transition::Cond(c) => c < conds@.len() && ofc@[c as int] == Some(t as TransitionId),
                    Transition::Eff(e) => e < e0.len() && f0[e as int] == Some(t as TransitionId),
                    Transition::CondEff(c, e) => c < conds@.len() && e < e0.len() && ofc@[c as int] == Some(t as TransitionId)
                        && f0[e as int] == Some(t as TransitionId) && compatible(conds@[c as int], e0[e as int])
                        && conds@[c as int].source is Some,
                });
                assert(effs[e as int] == e0[e as int]);
            } else {
                let j = t - s0.len();
                assert(store@[s0.len() + j] == Transition::Eff((n0 + j) as EffectId));
                assert(effs[n0 + j] == r0[j]);
            }
        }
    }
}

/// The positions of the terms of a transition among the terms of its source: for its
/// arguments, its read value (if it has one) and its assigned value; `None` for a constant
/// (or for a term its source does not hold).
#[derive(Debug, Clone, PartialEq, Eq)]
pub struct TermsIndicesInSource {
    pub args: Vec<Option<u16>>,
    pub val: Option<Option<u16>>,
    pub op: Option<u16>,
}

/// The view of the positions of the terms of a transition.
pub type TermsIndicesView = (Seq<Option<u16>>, Option<Option<u16>>, Option<u16>);

/// The first position of `x` in `ts`.
pub open spec fn first_index(ts: Seq<IntTerm>, x: IntTerm) -> Option<int>
    decreases ts.len(),
{
    if ts.len() == 0 {
        None
    } else if ts[0] == x {
        Some(0)
    } else {
        match first_index(ts.drop_first(), x) {
            Some(k) => Some(k + 1),
            None => None,
        }
    }
}

/// The position of a variable term among the terms of its source.
pub open spec fn index_in_source(ts: Seq<IntTerm>, x: IntTerm) -> Option<u16> {
    if x is Cst {
        None
    } else {
        match first_index(ts, x) {
            Some(k) => Some((k as usize) as u16),
            None => None,
        }
    }
}

/// The terms of a source: the arguments of its task, or the global ones.
pub open spec fn source_terms(task_args: Seq<Seq<IntTerm>>, global_args: Seq<IntTerm>, s: Source) -> Seq<IntTerm> {
    match s {
        Some(t) => task_args[t.id as int],
        None => global_args,
    }
}

/// The positions of the terms of a transition among those of its source.
pub open spec fn terms_indices(
    conds: Seq<Condition>,
    effs: Seq<Effect>,
    task_args: Seq<Seq<IntTerm>>,
    global_args: Seq<IntTerm>,
    tr: Transition,
) -> TermsIndicesView {
    let ts = source_terms(task_args, global_args, trans_source(conds, effs, tr));
    match tr {
        Transition::Cond(c) => (
            conds[c as int].state_var.args@.map_values(|x: IntTerm| index_in_source(ts, x)),
            Some(index_in_source(ts, conds[c as int].value)),
            index_in_source(ts, conds[c as int].value),
        ),
        Transition::Eff(e) => (
            effs[e as int].state_var.args@.map_values(|x: IntTerm| index_in_source(ts, x)),
            None,
            index_in_source(ts, effs[e as int].op),
        ),
        Transition::CondEff(c, e) => (
            conds[c as int].state_var.args@.map_values(|x: IntTerm| index_in_source(ts, x)),
            Some(index_in_source(ts, conds[c as int].value)),
            index_in_source(ts, effs[e as int].op),
        ),
    }
}

proof fn lemma_first_index(ts: Seq<IntTerm>, x: IntTerm, k: int)
    requires
        0 <= k <= ts.len(),
        forall|j: int| 0 <= j < k ==> ts[j] != x,
    ensures
        k < ts.len() && ts[k] == x ==> first_index(ts, x) == Some(k),
        k == ts.len() ==> first_index(ts, x) is None,
    decreases k,
{
    if k > 0 {
        let t = ts.drop_first();
        assert forall|j: int| 0 <= j < k - 1 implies t[j] != x by {
            assert(t[j] == ts[j + 1]);
        }
        if k < ts.len() {
            assert(t[k - 1] == ts[k]);
        }
        lemma_first_index(t, x, k - 1);
    } else if ts.len() == 0 {
    }
}

fn index_in_source_exec(ts: &[IntTerm], x: IntTerm) -> (res: Option<u16>)
    ensures
        res == index_in_source(ts@, x),
{
    if x.is_cst() {
        return None;
    }
    let mut k: usize = 0;
    while k < ts.len()
        invariant
            k <= ts@.len(),
            !(x is Cst),
            forall|j: int| 0 <= j < k ==> ts@[j] != x,
        decreases ts@.len() - k,
    {
        if ts[k] == x {
            proof {
                lemma_first_index(ts@, x, k as int);
            }
            let r: u16 = #[verifier::truncate] (k as u16);
            assert(first_index(ts@, x) == Some(k as int));
            assert(((k as int) as usize) == k);
            assert(index_in_source(ts@, x) == Some(r));
            return Some(r);
        }
        k = k + 1;
    }
    proof {
        lemma_first_index(ts@, x, k as int);
    }
    None
}

fn terms_indices_exec(
    conds: &[Condition],
    effs: &[Effect],
    task_args: &[Vec<IntTerm>],
    global_args: &[IntTerm],
    tr: Transition,
) -> (res: TermsIndicesInSource)
    requires
        match tr {
            Transition::Cond(c) => c < conds@.len(),
            Transition::Eff(e) => e < effs@.len(),
            Transition::CondEff(c, e) => c < conds@.len() && e < effs@.len(),
        },
        trans_source(conds@, effs@, tr) matches Some(t) ==> t.id < task_args@.len(),
    ensures
        (res.args@, res.val, res.op) == terms_indices(conds@, effs@, task_args@.map_values(|v: Vec<IntTerm>| v@), global_args@, tr),
{
    let src = match tr {
        Transition::Cond(c) => conds[c].source,
        Transition::Eff(e) => effs[e].source,
        Transition::CondEff(c, _) => conds[c].source,
    };
    let ts: &[IntTerm] = match src {
        Some(t) => task_args[t.id].as_slice(),
        None => global_args,
    };
    let ghost tav = task_args@.map_values(|v: Vec<IntTerm>| v@);
    assert(ts@ == source_terms(tav, global_args@, trans_source(conds@, effs@, tr)));
    let (args, val, op): (&Vec<IntTerm>, Option<IntTerm>, IntTerm) = match tr {
        Transition::Cond(c) => (&conds[c].state_var.args, Some(conds[c].value), conds[c].value),
        Transition::Eff(e) => (&effs[e].state_var.args, None, effs[e].op),
        Transition::CondEff(c, e) => (&conds[c].state_var.args, Some(conds[c].value), effs[e].op),
    };
    let mut idx: Vec<Option<u16>> = Vec::new();
    let mut k: usize = 0;
    while k < args.len()
        invariant
            k <= args@.len(),
            idx@ == args@.subrange(0, k as int).map_values(|x: IntTerm| index_in_source(ts@, x)),
        decreases args@.len() - k,
    {
        let i = index_in_source_exec(ts, args[k]);
        idx.push(i);
        assert(idx@ =~= args@.subrange(0, k + 1).map_values(|x: IntTerm| index_in_source(ts@, x)));
        k = k + 1;
    }
    assert(args@.subrange(0, k as int) =~= args@);
    let val_idx = match val {
        Some(v) => Some(index_in_source_exec(ts, v)),
        None => None,
    };
    let op_idx = index_in_source_exec(ts, op);
    TermsIndicesInSource { args: idx, val: val_idx, op: op_idx }
}

/// The transitions of the conditions and effects that are not relaxed.
pub struct Transitions {
    store: Vec<Transition>,
    terms_indices_in_source: Vec<TermsIndicesInSource>,
    recovered_first: EffectId,
    recovered_count: usize,
    of_condition: Vec<Option<TransitionId>>,
    of_effect: Vec<Option<TransitionId>>,
    of_concrete_source: Vec<Vec<TransitionId>>,
    of_empty_source: Vec<TransitionId>,
}

/// The default initial effects recovered, if asked for.
pub open spec fn recovered_for(
    conds: Seq<Condition>,
    effs: Seq<Effect>,
    cign: Seq<CondId>,
    eign: Seq<EffectId>,
    fluents: Seq<Fluent>,
    recover: bool,
) -> Seq<(usize, Seq<IntCst>)> {
    if recover {
        recovered_tuples(conds, effs, cign, eign, fluents, fluents.len())
    } else {
        seq![]
    }
}

impl Transitions {
    /// The identifier of the first recovered default effect (the number of given effects).
    pub closed spec fn recovered_first(&self) -> nat {
        self.recovered_first as nat
    }

    /// The number of recovered default effects.
    pub closed spec fn recovered_count(&self) -> nat {
        self.recovered_count as nat
    }

    /// The transitions, by identifier.
    pub closed spec fn store(&self) -> Seq<Transition> {
        self.store@
    }

    /// The positions of the terms of each transition among those of its source.
    pub closed spec fn terms_indices_view(&self) -> Seq<TermsIndicesView> {
        self.terms_indices_in_source@.map_values(|x: TermsIndicesInSource| (x.args@, x.val, x.op))
    }

    /// The transition of each condition, if it has one.
    pub closed spec fn of_conditions(&self) -> Seq<Option<TransitionId>> {
        self.of_condition@
    }

    /// The transition of each effect, if it has one.
    pub closed spec fn of_effects(&self) -> Seq<Option<TransitionId>> {
        self.of_effect@
    }

    /// The number of tasks whose transitions are listed (tasks from index 0).
    pub closed spec fn tasks_listed(&self) -> nat {
        self.of_concrete_source@.len()
    }

    /// The transitions listed for a source are transitions of the store.
    pub open spec fn wf(&self) -> bool {
        forall|s: Source, x: TransitionId| #[trigger] self.of_source_view(s).contains(x) ==> x < self.store().len()
    }

    /// The transitions of a source, in increasing order.
    pub closed spec fn of_source_view(&self, source: Source) -> Seq<TransitionId> {
        match source {
            None => self.of_empty_source@,
            Some(task_id) => if task_id.id < self.of_concrete_source@.len() {
                self.of_concrete_source@[task_id.id as int]@
            } else {
                Seq::empty()
            },
        }
    }

    /// Collects the transitions of the conditions and effects that are not ignored (those that
    /// cannot be relaxed unambiguously). Conditions come first, by source (the empty source,
    /// then tasks by index) and index; then each effect of a task joins the transition of the
    /// compatible condition of its task (same state variable and presence), if there is one,
    /// and otherwise gets a transition of its own. An effect has at most one compatible
    /// condition. When `recover_closed_world_defaults`, each ground state variable of a fluent
    /// that no ignored condition or effect is on, and that no initial effect sets, gets a
    /// default initial effect (appended to `effects`, with the identifiers that follow) and an
    /// effect transition of its own.
    pub fn new_unambiguous(
        conditions: &[Condition],
        effects: &mut Vec<Effect>,
        fluents: &[Fluent],
        task_args: &[Vec<IntTerm>],
        global_args: &[IntTerm],
        conditions_to_ignore: &[CondId],
        effects_to_ignore: &[EffectId],
        recover_closed_world_defaults: bool,
    ) -> (res: Transitions)
        requires
            forall|c: int| 0 <= c < conditions@.len() && !conditions_to_ignore@.contains(c as CondId)
                ==> ((#[trigger] conditions@[c]).source matches Some(t) ==> t.id < task_args@.len()),
            forall|e: int| 0 <= e < old(effects)@.len() && !effects_to_ignore@.contains(e as EffectId)
                ==> ((#[trigger] old(effects)@[e]).source matches Some(t) ==> t.id < task_args@.len()),
            forall|c: int| 0 <= c < conditions@.len() ==> rank(#[trigger] conditions@[c].source) < usize::MAX,
            forall|e: int| 0 <= e < old(effects)@.len() ==> rank(#[trigger] old(effects)@[e].source) < usize::MAX,
            forall|e: int, c1: int, c2: int| 0 <= e < old(effects)@.len() && 0 <= c1 < conditions@.len() && 0 <= c2 < conditions@.len()
                && !conditions_to_ignore@.contains(c1 as CondId) && !conditions_to_ignore@.contains(c2 as CondId)
                && compatible(#[trigger] conditions@[c1], #[trigger] old(effects)@[e]) && compatible(#[trigger] conditions@[c2], old(effects)@[e]) ==> c1 == c2,
            recover_closed_world_defaults ==> forall|k: int| 0 <= k < conditions_to_ignore@.len() ==> #[trigger] conditions_to_ignore@[k] < conditions@.len(),
            recover_closed_world_defaults ==> forall|k: int| 0 <= k < effects_to_ignore@.len() ==> #[trigger] effects_to_ignore@[k] < old(effects)@.len(),
        ensures
            final(effects)@.len() == old(effects)@.len() + recovered_for(conditions@, old(effects)@, conditions_to_ignore@,
                effects_to_ignore@, fluents@, recover_closed_world_defaults).len(),
            forall|e: int| 0 <= e < old(effects)@.len() ==> #[trigger] final(effects)@[e] == old(effects)@[e],
            forall|k: int| 0 <= k < recovered_for(conditions@, old(effects)@, conditions_to_ignore@, effects_to_ignore@, fluents@,
                recover_closed_world_defaults).len() ==> is_default_effect(#[trigger] final(effects)@[old(effects)@.len() + k],
                recovered_for(conditions@, old(effects)@, conditions_to_ignore@, effects_to_ignore@, fluents@, recover_closed_world_defaults)[k],
                fluents@),
            res.recovered_first() == old(effects)@.len(),
            res.recovered_count() == recovered_for(conditions@, old(effects)@, conditions_to_ignore@, effects_to_ignore@, fluents@,
                recover_closed_world_defaults).len(),
            res.wf(),
            linked(conditions@, final(effects)@, res.store(), res.of_conditions(), res.of_effects()),
            forall|c: int| 0 <= c < conditions@.len() ==> ((#[trigger] res.of_conditions()[c]) is Some
                <==> !conditions_to_ignore@.contains(c as CondId)),
            forall|e: int| 0 <= e < final(effects)@.len() ==> ((#[trigger] res.of_effects()[e]) is Some
                <==> (e >= old(effects)@.len() || !effects_to_ignore@.contains(e as EffectId))),
            forall|e: int| old(effects)@.len() <= e < final(effects)@.len() ==> (#[trigger] res.of_effects()[e]) is Some
                && res.store()[res.of_effects()[e]->0 as int] == Transition::Eff(e as EffectId),
            effects_alone(conditions@, final(effects)@, res.store(), conditions_to_ignore@),
            forall|s: Source, x: TransitionId| #[trigger] res.of_source_view(s).contains(x) <==> (x < res.store().len()
                && trans_source(conditions@, final(effects)@, res.store()[x as int]) == s),
            forall|s: Source, a: int, b: int| 0 <= a < b < res.of_source_view(s).len()
                ==> #[trigger] res.of_source_view(s)[a] < #[trigger] res.of_source_view(s)[b],
            res.terms_indices_view().len() == res.store().len(),
            forall|t: int| 0 <= t < res.store().len() ==> #[trigger] res.terms_indices_view()[t] == terms_indices(
                conditions@, final(effects)@, task_args@.map_values(|v: Vec<IntTerm>| v@), global_args@, res.store()[t]),
    {
        let ghost effs0 = effects@;
        let n0 = effects.len();
        let n = max_rank(conditions, effects.as_slice());
        let (mut store, of_condition, mut of_effect) = conditions_pass(conditions, effects.as_slice(), conditions_to_ignore, n);
        effects_pass(conditions, effects.as_slice(), conditions_to_ignore, effects_to_ignore, n, &mut store, &of_condition, &mut of_effect);
        let ghost store1 = store@;
        let ghost ofe1 = of_effect@;
        let mut rec: Vec<Effect> = if recover_closed_world_defaults {
            recovered_defaults(conditions, effects.as_slice(), fluents, conditions_to_ignore, effects_to_ignore)
        } else {
            Vec::new()
        };
        let ghost rt = recovered_for(conditions@, effs0, conditions_to_ignore@, effects_to_ignore@, fluents@, recover_closed_world_defaults);
        let ghost recv = rec@;
        proof {
            assert(rec@.len() == rt.len());
            assert forall|k: int| 0 <= k < rec@.len() implies (#[trigger] rec@[k]).source is None by {
                assert(is_default_effect(rec@[k], rt[k], fluents@));
            }
        }
        let recovered_count = rec.len();
        append_recovered(conditions, effects, &mut rec, &mut store, &of_condition, &mut of_effect, conditions_to_ignore);
        let ghost effs = effects@;
        proof {
            assert forall|e: int| 0 <= e < effs.len() implies rank(#[trigger] effs[e].source) <= n by {
                if e < n0 {
                    assert(effs[e] == effs0[e]);
                } else {
                    assert(effs[e] == recv[e - n0]);
                    assert(is_default_effect(recv[e - n0], rt[e - n0], fluents@));
                }
            }
            assert forall|e: int| 0 <= e < effs.len() && (e >= n0 || !effects_to_ignore@.contains(e as EffectId))
                implies ((#[trigger] effs[e]).source matches Some(t) ==> t.id < task_args@.len()) by {
                if e < n0 {
                    assert(effs[e] == effs0[e]);
                } else {
                    assert(effs[e] == recv[e - n0]);
                    assert(is_default_effect(recv[e - n0], rt[e - n0], fluents@));
                }
            }
            assert forall|e: int| 0 <= e < effs.len() implies ((#[trigger] of_effect@[e]) is Some
                <==> (e >= n0 || !effects_to_ignore@.contains(e as EffectId))) by {
                if e < n0 {
                    assert(of_effect@[e] == ofe1[e]);
                } else {
                    assert(of_effect@[ofe1.len() + (e - n0)] == Some((store1.len() + (e - n0)) as TransitionId));
                }
            }
            lemma_linked_in_range(conditions@, effs, store@, of_condition@, of_effect@);
        }
        let of_empty_source = source_list(conditions, effects.as_slice(), &store, None);
        let mut of_concrete_source: Vec<Vec<TransitionId>> = Vec::new();
        let mut k: usize = 0;
        while k < n
            invariant
                k <= n,
                effs == effects@,
                of_concrete_source@.len() == k,
                in_range(conditions@, effs, store@),
                forall|j: int, x: TransitionId| 0 <= j < k ==> (#[trigger] of_concrete_source@[j]@.contains(x) <==> (x < store@.len()
                    && trans_source(conditions@, effs, store@[x as int]) == Some(TaskId { id: j as usize }))),
                forall|j: int, a: int, b: int| 0 <= j < k && 0 <= a < b < of_concrete_source@[j]@.len()
                    ==> #[trigger] of_concrete_source@[j]@[a] < #[trigger] of_concrete_source@[j]@[b],
            decreases n - k,
        {
            let list = source_list(conditions, effects.as_slice(), &store, Some(TaskId { id: k }));
            of_concrete_source.push(list);
            k = k + 1;
        }
        let mut terms_indices_in_source: Vec<TermsIndicesInSource> = Vec::new();
        let ghost tav = task_args@.map_values(|v: Vec<IntTerm>| v@);
        let mut t: usize = 0;
        while t < store.len()
            invariant
                t <= store@.len(),
                effs == effects@,
                linked(conditions@, effs, store@, of_condition@, of_effect@),
                forall|c: int| 0 <= c < conditions@.len() ==> ((#[trigger] of_condition@[c]) is Some
                    <==> !conditions_to_ignore@.contains(c as CondId)),
                forall|e: int| 0 <= e < effs.len() ==> ((#[trigger] of_effect@[e]) is Some
                    <==> (e >= n0 || !effects_to_ignore@.contains(e as EffectId))),
                forall|c: int| 0 <= c < conditions@.len() && !conditions_to_ignore@.contains(c as CondId)
                    ==> ((#[trigger] conditions@[c]).source matches Some(t) ==> t.id < task_args@.len()),
                forall|e: int| 0 <= e < effs.len() && (e >= n0 || !effects_to_ignore@.contains(e as EffectId))
                    ==> ((#[trigger] effs[e]).source matches Some(t) ==> t.id < task_args@.len()),
                tav == task_args@.map_values(|v: Vec<IntTerm>| v@),
                terms_indices_in_source@.len() == t,
                forall|u: int| 0 <= u < t ==> (#[trigger] terms_indices_in_source@[u]).args@ == terms_indices(conditions@, effs, tav, global_args@, store@[u]).0
                    && terms_indices_in_source@[u].val == terms_indices(conditions@, effs, tav, global_args@, store@[u]).1
                    && terms_indices_in_source@[u].op == terms_indices(conditions@, effs, tav, global_args@, store@[u]).2,
            decreases store@.len() - t,
        {
            let tr = store[t];
            proof {
                assert(match store@[t as int] {
                    Transition::Cond(c3) => c3 < conditions@.len() && of_condition@[c3 as int] == Some(t as TransitionId),
                    Transition::Eff(e3) => e3 < effs.len() && of_effect@[e3 as int] == Some(t as TransitionId),
                    Transition::CondEff(c3, e3) => c3 < conditions@.len() && e3 < effs.len() && of_condition@[c3 as int] == Some(t as TransitionId)
                        && of_effect@[e3 as int] == Some(t as TransitionId) && compatible(conditions@[c3 as int], effs[e3 as int])
                        && conditions@[c3 as int].source is Some,
                });
                match tr {
                    Transition::Cond(c) => {
                        assert(!conditions_to_ignore@.contains(c as CondId));
                    },
                    Transition::Eff(e) => {
                        assert(e >= n0 || !effects_to_ignore@.contains(e as EffectId));
                    },
                    Transition::CondEff(c, _) => {
                        assert(!conditions_to_ignore@.contains(c as CondId));
                    },
                }
            }
            let ti = terms_indices_exec(conditions, effects.as_slice(), task_args, global_args, tr);
            terms_indices_in_source.push(ti);
            t = t + 1;
        }
        let res = Transitions {
            store,
            terms_indices_in_source,
            recovered_first: n0,
            recovered_count,
            of_condition,
            of_effect,
            of_concrete_source,
            of_empty_source,
        };
        proof {
            assert forall|s: Source, x: TransitionId| #[trigger] res.of_source_view(s).contains(x) <==> (x < res.store().len()
                && trans_source(conditions@, effs, res.store()[x as int]) == s) by {
                if let Some(task_id) = s {
                    if task_id.id < n {
                        assert(res.of_source_view(s) == res.of_concrete_source@[task_id.id as int]@);
                        assert(task_id == TaskId { id: task_id.id });
                    } else {
                        if x < res.store().len() && trans_source(conditions@, effs, res.store()[x as int]) == s {
                            match res.store()[x as int] {
                                Transition::Cond(c) => {
                                    assert(rank(conditions@[c as int].source) <= n);
                                },
                                Transition::Eff(e) => {
                                    assert(rank(effs[e as int].source) <= n);
                                },
                                Transition::CondEff(c, _) => {
                                    assert(rank(conditions@[c as int].source) <= n);
                                },
                            }
                        }
                    }
                }
            }
            assert forall|s: Source, a: int, b: int| 0 <= a < b < res.of_source_view(s).len()
                implies #[trigger] res.of_source_view(s)[a] < #[trigger] res.of_source_view(s)[b] by {
                if let Some(task_id) = s {
                    if task_id.id < n {
                        assert(res.of_source_view(s) == res.of_concrete_source@[task_id.id as int]@);
                    }
                }
            }
            assert forall|e: int| n0 <= e < effs.len() implies (#[trigger] res.of_effects()[e]) is Some
                && res.store()[res.of_effects()[e]->0 as int] == Transition::Eff(e as EffectId) by {
                let j = e - n0;
                assert(of_effect@[ofe1.len() + j] == Some((store1.len() + j) as TransitionId));
                assert(res.store()[store1.len() + j] == Transition::Eff((n0 + j) as EffectId));
            }
            assert forall|k: int| 0 <= k < rt.len() implies is_default_effect(#[trigger] effs[n0 + k], rt[k], fluents@) by {
                assert(effs[n0 + k] == recv[k]);
            }
        }
        res
    }

    /// The number of tasks whose transitions are listed.
    pub fn tasks_listed_len(&self) -> (res: usize)
        ensures
            res == self.tasks_listed(),
    {
        self.of_concrete_source.len()
    }

    /// Whether no default initial effect was recovered.
    pub fn are_recovered_closed_world_default_effects_empty(&self) -> (res: bool)
        ensures
            res == (self.recovered_count() == 0),
    {
        self.recovered_count == 0
    }

    /// Whether effect `eff_id` is a recovered default initial effect.
    pub fn is_recovered_closed_world_default(&self, eff_id: EffectId) -> (res: bool)
        ensures
            res == (self.recovered_first() <= eff_id < self.recovered_first() + self.recovered_count()),
    {
        eff_id >= self.recovered_first && eff_id - self.recovered_first < self.recovered_count
    }

    /// The positions of the terms of transition `trans_id` among those of its source.
    pub fn get_terms_indices_in_source(&self, trans_id: TransitionId) -> (res: &TermsIndicesInSource)
        requires
            trans_id < self.terms_indices_view().len(),
        ensures
            (res.args@, res.val, res.op) == self.terms_indices_view()[trans_id as int],
    {
        &self.terms_indices_in_source[trans_id]
    }

    /// The transitions with their identifiers.
    pub fn iter(&self) -> (res: Vec<(TransitionId, Transition)>)
        ensures
            res@.len() == self.store().len(),
            forall|k: int| 0 <= k < res@.len() ==> #[trigger] res@[k] == (k as TransitionId, self.store()[k]),
    {
        let mut res: Vec<(TransitionId, Transition)> = Vec::new();
        let mut k: usize = 0;
        while k < self.store.len()
            invariant
                k <= self.store@.len(),
                res@.len() == k,
                forall|j: int| 0 <= j < k ==> #[trigger] res@[j] == (j as TransitionId, self.store@[j]),
            decreases self.store@.len() - k,
        {
            res.push((k, self.store[k]));
            k = k + 1;
        }
        res
    }

    /// The conditions that have a transition, with it, by increasing condition.
    pub fn iter_of_conditions(&self) -> (res: Vec<(CondId, TransitionId)>)
        ensures
            res@ == indexed_somes(self.of_conditions()),
    {
        indexed_somes_exec(&self.of_condition)
    }

    /// The effects that have a transition, with it, by increasing effect.
    pub fn iter_of_effects(&self) -> (res: Vec<(EffectId, TransitionId)>)
        ensures
            res@ == indexed_somes(self.of_effects()),
    {
        indexed_somes_exec(&self.of_effect)
    }

    /// The number of transitions.
    pub fn len(&self) -> (res: usize)
        ensures
            res == self.store().len(),
    {
        self.store.len()
    }

    pub fn get(&self, trans_id: TransitionId) -> (res: Transition)
        requires
            trans_id < self.store().len(),
        ensures
            res == self.store()[trans_id as int],
    {
        self.store[trans_id]
    }

    /// The transition of condition `cond_id`, if it has one.
    pub fn of_condition(&self, cond_id: CondId) -> (res: Option<TransitionId>)
        ensures
            res == if cond_id < self.of_conditions().len() { self.of_conditions()[cond_id as int] } else { None },
    {
        if cond_id < self.of_condition.len() {
            self.of_condition[cond_id]
        } else {
            None
        }
    }

    /// The transition of effect `eff_id`, if it has one.
    pub fn of_effect(&self, eff_id: EffectId) -> (res: Option<TransitionId>)
        ensures
            res == if eff_id < self.of_effects().len() { self.of_effects()[eff_id as int] } else { None },
    {
        if eff_id < self.of_effect.len() {
            self.of_effect[eff_id]
        } else {
            None
        }
    }

    /// The transitions of `source`, in increasing order.
    pub fn of_source(&self, source: Source) -> (res: &[TransitionId])
        ensures
            res@ == self.of_source_view(source),
    {
        match source {
            None => self.of_empty_source.as_slice(),
            Some(task_id) => {
                if task_id.id < self.of_concrete_source.len() {
                    self.of_concrete_source[task_id.id].as_slice()
                } else {
                    let e: &[TransitionId] = &[];
                    assert(e@ =~= self.of_source_view(source));
                    e
                }
            },
        }
    }
}

/// A causal link of the encoding: effect `eff_id` supports condition `cond_id` when `active` holds.
#[derive(Debug, Clone, Copy, PartialEq, Eq, Structural)]
pub struct CausalLink {
    pub eff_id: EffectId,
    pub cond_id: CondId,
    pub active: LitId,
}

/// A support from a transition to another, with the literal that activates it, if any.
pub type SupportPair = ((TransitionId, TransitionId), Option<LitId>);

/// The pairs (index, identifier) of `of`, by increasing index.
pub open spec fn indexed_somes(of: Seq<Option<TransitionId>>) -> Seq<(usize, TransitionId)>
    decreases of.len(),
{
    if of.len() == 0 {
        seq![]
    } else if of.last() is Some {
        indexed_somes(of.drop_last()).push(((of.len() - 1) as usize, of.last()->0))
    } else {
        indexed_somes(of.drop_last())
    }
}

fn indexed_somes_exec(of: &Vec<Option<TransitionId>>) -> (res: Vec<(usize, TransitionId)>)
    ensures
        res@ == indexed_somes(of@),
{
    let mut res: Vec<(usize, TransitionId)> = Vec::new();
    let mut i: usize = 0;
    while i < of.len()
        invariant
            i <= of@.len(),
            res@ == indexed_somes(of@.subrange(0, i as int)),
        decreases of@.len() - i,
    {
        proof {
            assert(of@.subrange(0, i + 1).drop_last() =~= of@.subrange(0, i as int));
            assert(of@.subrange(0, i + 1).last() == of@[i as int]);
        }
        match of[i] {
            Some(t) => res.push((i, t)),
            None => {},
        }
        i = i + 1;
    }
    assert(of@.subrange(0, i as int) =~= of@);
    res
}

/// The identifiers held by `of`, by increasing index.
pub open spec fn somes(of: Seq<Option<TransitionId>>) -> Seq<TransitionId>
    decreases of.len(),
{
    if of.len() == 0 {
        seq![]
    } else if of.last() is Some {
        somes(of.drop_last()).push(of.last()->0)
    } else {
        somes(of.drop_last())
    }
}

/// The state variable of a transition (that of its effect, when it has one).
pub open spec fn tr_state_var(conds: Seq<Condition>, effs: Seq<Effect>, tr: Transition) -> StateVar {
    match tr {
        Transition::Cond(c) => conds[c as int].state_var,
        Transition::Eff(e) => effs[e as int].state_var,
        Transition::CondEff(_, e) => effs[e as int].state_var,
    }
}

/// The source of a transition (that of its effect, when it has one).
pub open spec fn tr_src(conds: Seq<Condition>, effs: Seq<Effect>, tr: Transition) -> Source {
    match tr {
        Transition::Cond(c) => conds[c as int].source,
        Transition::Eff(e) => effs[e as int].source,
        Transition::CondEff(_, e) => effs[e as int].source,
    }
}

/// The value a transition reads, when it has a condition.
pub open spec fn tr_val(conds: Seq<Condition>, tr: Transition) -> Option<IntTerm> {
    match tr {
        Transition::Cond(c) => Some(conds[c as int].value),
        Transition::Eff(_) => None,
        Transition::CondEff(c, _) => Some(conds[c as int].value),
    }
}

/// Two argument lists have different constants at a same position.
pub open spec fn args_clash(a: Seq<IntTerm>, b: Seq<IntTerm>) -> bool {
    exists|k: int| 0 <= k < a.len() && k < b.len() && #[trigger] a[k] is Cst && b[k] is Cst && a[k] != b[k]
}

/// Two read values are different constants.
pub open spec fn vals_clash(a: Option<IntTerm>, b: Option<IntTerm>) -> bool {
    &&& a is Some
    &&& b is Some
    &&& a->0 is Cst
    &&& b->0 is Cst
    &&& a->0 != b->0
}

/// Transition `o` may support the effect transition `i`: another transition of a task that is
/// not a condition-effect, on the same fluent with arguments that may be equal.
pub open spec fn into_effect_ok(conds: Seq<Condition>, effs: Seq<Effect>, store: Seq<Transition>, o: TransitionId, i: TransitionId) -> bool {
    &&& o != i
    &&& !(store[i as int] is CondEff)
    &&& tr_src(conds, effs, store[i as int]) is Some
    &&& tr_state_var(conds, effs, store[o as int]).fluent == tr_state_var(conds, effs, store[i as int]).fluent
    &&& !args_clash(tr_state_var(conds, effs, store[o as int]).args@, tr_state_var(conds, effs, store[i as int]).args@)
}

/// Transition `o` may support the condition transition `i`: another transition on the same
/// fluent, with arguments and read values that may be equal.
pub open spec fn into_condition_ok(conds: Seq<Condition>, effs: Seq<Effect>, store: Seq<Transition>, o: TransitionId, i: TransitionId) -> bool {
    &&& o != i
    &&& tr_state_var(conds, effs, store[o as int]).fluent == tr_state_var(conds, effs, store[i as int]).fluent
    &&& !args_clash(tr_state_var(conds, effs, store[o as int]).args@, tr_state_var(conds, effs, store[i as int]).args@)
    &&& !vals_clash(tr_val(conds, store[o as int]), tr_val(conds, store[i as int]))
}

/// A condition transition supports others only if it belongs to a task and is not a
/// condition-effect.
pub open spec fn out_condition_ok(conds: Seq<Condition>, effs: Seq<Effect>, store: Seq<Transition>, o: TransitionId) -> bool {
    &&& tr_src(conds, effs, store[o as int]) is Some
    &&& !(store[o as int] is CondEff)
}

pub open spec fn to_effects(conds: Seq<Condition>, effs: Seq<Effect>, store: Seq<Transition>, o: TransitionId, ins: Seq<TransitionId>) -> Seq<SupportPair>
    decreases ins.len(),
{
    if ins.len() == 0 {
        seq![]
    } else if into_effect_ok(conds, effs, store, o, ins.last()) {
        to_effects(conds, effs, store, o, ins.drop_last()).push(((o, ins.last()), None))
    } else {
        to_effects(conds, effs, store, o, ins.drop_last())
    }
}

pub open spec fn to_conditions(conds: Seq<Condition>, effs: Seq<Effect>, store: Seq<Transition>, o: TransitionId, ins: Seq<TransitionId>) -> Seq<SupportPair>
    decreases ins.len(),
{
    if ins.len() == 0 {
        seq![]
    } else if into_condition_ok(conds, effs, store, o, ins.last()) {
        to_conditions(conds, effs, store, o, ins.drop_last()).push(((o, ins.last()), None))
    } else {
        to_conditions(conds, effs, store, o, ins.drop_last())
    }
}

/// Supports from the effect transitions `outs` to the effect transitions `ins`.
pub open spec fn from_effects(conds: Seq<Condition>, effs: Seq<Effect>, store: Seq<Transition>, outs: Seq<TransitionId>, ins: Seq<TransitionId>) -> Seq<SupportPair>
    decreases outs.len(),
{
    if outs.len() == 0 {
        seq![]
    } else {
        from_effects(conds, effs, store, outs.drop_last(), ins) + to_effects(conds, effs, store, outs.last(), ins)
    }
}

/// Supports from the condition transitions `outs` to the effect transitions `eff_ins`, then
/// to the condition transitions `cond_ins`.
pub open spec fn from_conditions(
    conds: Seq<Condition>,
    effs: Seq<Effect>,
    store: Seq<Transition>,
    outs: Seq<TransitionId>,
    eff_ins: Seq<TransitionId>,
    cond_ins: Seq<TransitionId>,
) -> Seq<SupportPair>
    decreases outs.len(),
{
    if outs.len() == 0 {
        seq![]
    } else {
        from_conditions(conds, effs, store, outs.drop_last(), eff_ins, cond_ins) + if out_condition_ok(conds, effs, store, outs.last()) {
            to_effects(conds, effs, store, outs.last(), eff_ins) + to_conditions(conds, effs, store, outs.last(), cond_ins)
        } else {
            seq![]
        }
    }
}

/// Supports of the causal links between transitions (two distinct ones).
pub open spec fn from_links(ofc: Seq<Option<TransitionId>>, ofe: Seq<Option<TransitionId>>, links: Seq<CausalLink>) -> Seq<SupportPair>
    decreases links.len(),
{
    if links.len() == 0 {
        seq![]
    } else {
        let l = links.last();
        let r = from_links(ofc, ofe, links.drop_last());
        if l.eff_id < ofe.len() && ofe[l.eff_id as int] is Some && l.cond_id < ofc.len() && ofc[l.cond_id as int] is Some
            && ofe[l.eff_id as int]->0 != ofc[l.cond_id as int]->0 {
            r.push(((ofe[l.eff_id as int]->0, ofc[l.cond_id as int]->0), Some(l.active)))
        } else {
            r
        }
    }
}

fn somes_exec(of: &Vec<Option<TransitionId>>, Ghost(bound): Ghost<nat>) -> (res: Vec<TransitionId>)
    requires
        forall|i: int| 0 <= i < of@.len() && (#[trigger] of@[i]) is Some ==> of@[i]->0 < bound,
    ensures
        res@ == somes(of@),
        forall|k: int| 0 <= k < res@.len() ==> #[trigger] res@[k] < bound,
{
    let mut res: Vec<TransitionId> = Vec::new();
    let mut i: usize = 0;
    while i < of.len()
        invariant
            i <= of@.len(),
            forall|i: int| 0 <= i < of@.len() && (#[trigger] of@[i]) is Some ==> of@[i]->0 < bound,
            res@ == somes(of@.subrange(0, i as int)),
            forall|k: int| 0 <= k < res@.len() ==> #[trigger] res@[k] < bound,
        decreases of@.len() - i,
    {
        proof {
            assert(of@.subrange(0, i + 1).drop_last() =~= of@.subrange(0, i as int));
            assert(of@.subrange(0, i + 1).last() == of@[i as int]);
        }
        match of[i] {
            Some(t) => res.push(t),
            None => {},
        }
        i = i + 1;
    }
    assert(of@.subrange(0, i as int) =~= of@);
    res
}

/// Every transition of `store` names a condition and an effect among `conds` and `effs`.
pub open spec fn in_range(conds: Seq<Condition>, effs: Seq<Effect>, store: Seq<Transition>) -> bool {
    forall|t: int| 0 <= t < store.len() ==> match #[trigger] store[t] {
        Transition::Cond(c) => c < conds.len(),
        Transition::Eff(e) => e < effs.len(),
        Transition::CondEff(c, e) => c < conds.len() && e < effs.len(),
    }
}

fn state_var_of<'a>(conds: &'a [Condition], effs: &'a [Effect], tr: Transition) -> (res: &'a StateVar)
    requires
        match tr {
            Transition::Cond(c) => c < conds@.len(),
            Transition::Eff(e) => e < effs@.len(),
            Transition::CondEff(c, e) => c < conds@.len() && e < effs@.len(),
        },
    ensures
        *res == tr_state_var(conds@, effs@, tr),
{
    match tr {
        Transition::Cond(c) => &conds[c].state_var,
        Transition::Eff(e) => &effs[e].state_var,
        Transition::CondEff(_, e) => &effs[e].state_var,
    }
}

fn src_of(conds: &[Condition], effs: &[Effect], tr: Transition) -> (res: Source)
    requires
        match tr {
            Transition::Cond(c) => c < conds@.len(),
            Transition::Eff(e) => e < effs@.len(),
            Transition::CondEff(c, e) => c < conds@.len() && e < effs@.len(),
        },
    ensures
        res == tr_src(conds@, effs@, tr),
{
    match tr {
        Transition::Cond(c) => conds[c].source,
        Transition::Eff(e) => effs[e].source,
        Transition::CondEff(_, e) => effs[e].source,
    }
}

fn val_of(conds: &[Condition], tr: Transition) -> (res: Option<IntTerm>)
    requires
        match tr {
            Transition::Cond(c) => c < conds@.len(),
            Transition::Eff(_) => true,
            Transition::CondEff(c, _) => c < conds@.len(),
        },
    ensures
        res == tr_val(conds@, tr),
{
    match tr {
        Transition::Cond(c) => Some(conds[c].value),
        Transition::Eff(_) => None,
        Transition::CondEff(c, _) => Some(conds[c].value),
    }
}

fn args_clash_exec(a: &[IntTerm], b: &[IntTerm]) -> (res: bool)
    ensures
        res == args_clash(a@, b@),
{
    let mut k: usize = 0;
    while k < a.len() && k < b.len()
        invariant
            k <= a@.len(),
            k <= b@.len(),
            forall|j: int| 0 <= j < k ==> !(#[trigger] a@[j] is Cst && b@[j] is Cst && a@[j] != b@[j]),
        decreases a@.len() - k,
    {
        if a[k].is_cst() && b[k].is_cst() && a[k] != b[k] {
            assert(a@[k as int] is Cst && b@[k as int] is Cst && a@[k as int] != b@[k as int]);
            return true;
        }
        k = k + 1;
    }
    false
}

fn vals_clash_exec(a: Option<IntTerm>, b: Option<IntTerm>) -> (res: bool)
    ensures
        res == vals_clash(a, b),
{
    match (a, b) {
        (Some(x), Some(y)) => x.is_cst() && y.is_cst() && x != y,
        _ => false,
    }
}

fn into_effect_ok_exec(conds: &[Condition], effs: &[Effect], store: &Vec<Transition>, o: TransitionId, i: TransitionId) -> (res: bool)
    requires
        in_range(conds@, effs@, store@),
        o < store@.len(),
        i < store@.len(),
    ensures
        res == into_effect_ok(conds@, effs@, store@, o, i),
{
    let to = store[o];
    let ti = store[i];
    assert(in_range(conds@, effs@, store@) ==> match store@[o as int] {
        Transition::Cond(c) => c < conds@.len(),
        Transition::Eff(e) => e < effs@.len(),
        Transition::CondEff(c, e) => c < conds@.len() && e < effs@.len(),
    });
    assert(in_range(conds@, effs@, store@) ==> match store@[i as int] {
        Transition::Cond(c) => c < conds@.len(),
        Transition::Eff(e) => e < effs@.len(),
        Transition::CondEff(c, e) => c < conds@.len() && e < effs@.len(),
    });
    let cond_eff = match ti {
        Transition::CondEff(_, _) => true,
        _ => false,
    };
    if o == i || cond_eff {
        return false;
    }
    match src_of(conds, effs, ti) {
        None => false,
        Some(_) => {
            let so = state_var_of(conds, effs, to);
            let si = state_var_of(conds, effs, ti);
            so.fluent == si.fluent && !args_clash_exec(so.args.as_slice(), si.args.as_slice())
        },
    }
}

fn into_condition_ok_exec(conds: &[Condition], effs: &[Effect], store: &Vec<Transition>, o: TransitionId, i: TransitionId) -> (res: bool)
    requires
        in_range(conds@, effs@, store@),
        o < store@.len(),
        i < store@.len(),
    ensures
        res == into_condition_ok(conds@, effs@, store@, o, i),
{
    let to = store[o];
    let ti = store[i];
    assert(in_range(conds@, effs@, store@) ==> match store@[o as int] {
        Transition::Cond(c) => c < conds@.len(),
        Transition::Eff(e) => e < effs@.len(),
        Transition::CondEff(c, e) => c < conds@.len() && e < effs@.len(),
    });
    assert(in_range(conds@, effs@, store@) ==> match store@[i as int] {
        Transition::Cond(c) => c < conds@.len(),
        Transition::Eff(e) => e < effs@.len(),
        Transition::CondEff(c, e) => c < conds@.len() && e < effs@.len(),
    });
    if o == i {
        return false;
    }
    let so = state_var_of(conds, effs, to);
    let si = state_var_of(conds, effs, ti);
    so.fluent == si.fluent && !args_clash_exec(so.args.as_slice(), si.args.as_slice())
        && !vals_clash_exec(val_of(conds, to), val_of(conds, ti))
}

fn push_to_effects(
    conds: &[Condition],
    effs: &[Effect],
    store: &Vec<Transition>,
    o: TransitionId,
    ins: &Vec<TransitionId>,
    res: &mut Vec<SupportPair>,
)
    requires
        in_range(conds@, effs@, store@),
        o < store@.len(),
        forall|k: int| 0 <= k < ins@.len() ==> #[trigger] ins@[k] < store@.len(),
    ensures
        final(res)@ == old(res)@ + to_effects(conds@, effs@, store@, o, ins@),
{
    let ghost r0 = res@;
    let mut b: usize = 0;
    while b < ins.len()
        invariant
            b <= ins@.len(),
            in_range(conds@, effs@, store@),
            o < store@.len(),
            forall|k: int| 0 <= k < ins@.len() ==> #[trigger] ins@[k] < store@.len(),
            res@ == r0 + to_effects(conds@, effs@, store@, o, ins@.subrange(0, b as int)),
        decreases ins@.len() - b,
    {
        let i = ins[b];
        proof {
            assert(ins@.subrange(0, b + 1).drop_last() =~= ins@.subrange(0, b as int));
            assert(ins@.subrange(0, b + 1).last() == i);
        }
        if into_effect_ok_exec(conds, effs, store, o, i) {
            res.push(((o, i), None));
            assert(res@ =~= r0 + to_effects(conds@, effs@, store@, o, ins@.subrange(0, b + 1)));
        }
        b = b + 1;
    }
    assert(ins@.subrange(0, b as int) =~= ins@);
}

fn push_to_conditions(
    conds: &[Condition],
    effs: &[Effect],
    store: &Vec<Transition>,
    o: TransitionId,
    ins: &Vec<TransitionId>,
    res: &mut Vec<SupportPair>,
)
    requires
        in_range(conds@, effs@, store@),
        o < store@.len(),
        forall|k: int| 0 <= k < ins@.len() ==> #[trigger] ins@[k] < store@.len(),
    ensures
        final(res)@ == old(res)@ + to_conditions(conds@, effs@, store@, o, ins@),
{
    let ghost r0 = res@;
    let mut b: usize = 0;
    while b < ins.len()
        invariant
            b <= ins@.len(),
            in_range(conds@, effs@, store@),
            o < store@.len(),
            forall|k: int| 0 <= k < ins@.len() ==> #[trigger] ins@[k] < store@.len(),
            res@ == r0 + to_conditions(conds@, effs@, store@, o, ins@.subrange(0, b as int)),
        decreases ins@.len() - b,
    {
        let i = ins[b];
        proof {
            assert(ins@.subrange(0, b + 1).drop_last() =~= ins@.subrange(0, b as int));
            assert(ins@.subrange(0, b + 1).last() == i);
        }
        if into_condition_ok_exec(conds, effs, store, o, i) {
            res.push(((o, i), None));
            assert(res@ =~= r0 + to_conditions(conds@, effs@, store@, o, ins@.subrange(0, b + 1)));
        }
        b = b + 1;
    }
    assert(ins@.subrange(0, b as int) =~= ins@);
}

proof fn lemma_linked_in_range(
    conds: Seq<Condition>,
    effs: Seq<Effect>,
    store: Seq<Transition>,
    ofc: Seq<Option<TransitionId>>,
    ofe: Seq<Option<TransitionId>>,
)
    requires
        linked(conds, effs, store, ofc, ofe),
    ensures
        in_range(conds, effs, store),
        forall|i: int| 0 <= i < ofc.len() && (#[trigger] ofc[i]) is Some ==> ofc[i]->0 < store.len(),
        forall|i: int| 0 <= i < ofe.len() && (#[trigger] ofe[i]) is Some ==> ofe[i]->0 < store.len(),
{
    assert forall|t: int| 0 <= t < store.len() implies match #[trigger] store[t] {
        Transition::Cond(c) => c < conds.len(),
        Transition::Eff(e) => e < effs.len(),
        Transition::CondEff(c, e) => c < conds.len() && e < effs.len(),
    } by {
        assert(match store[t] {
            Transition::Cond(c3) => c3 < conds.len() && ofc[c3 as int] == Some(t as TransitionId),
            Transition::Eff(e3) => e3 < effs.len() && ofe[e3 as int] == Some(t as TransitionId),
            Transition::CondEff(c3, e3) => c3 < conds.len() && e3 < effs.len() && ofc[c3 as int] == Some(t as TransitionId)
                && ofe[e3 as int] == Some(t as TransitionId) && compatible(conds[c3 as int], effs[e3 as int])
                && conds[c3 as int].source is Some,
        });
    }
}

/// No support goes from a transition to itself.
pub open spec fn distinct_ends(s: Seq<SupportPair>) -> bool {
    forall|k: int| 0 <= k < s.len() ==> (#[trigger] s[k]).0.0 != s[k].0.1
}

proof fn lemma_distinct_ends_concat(a: Seq<SupportPair>, b: Seq<SupportPair>)
    requires
        distinct_ends(a),
        distinct_ends(b),
    ensures
        distinct_ends(a + b),
{
    assert forall|k: int| 0 <= k < (a + b).len() implies (#[trigger] (a + b)[k]).0.0 != (a + b)[k].0.1 by {
        if k < a.len() {
            assert((a + b)[k] == a[k]);
        } else {
            assert((a + b)[k] == b[k - a.len()]);
        }
    }
}

proof fn lemma_distinct_ends_push(a: Seq<SupportPair>, x: SupportPair)
    requires
        distinct_ends(a),
        x.0.0 != x.0.1,
    ensures
        distinct_ends(a.push(x)),
{
    assert forall|k: int| 0 <= k < a.push(x).len() implies (#[trigger] a.push(x)[k]).0.0 != a.push(x)[k].0.1 by {
        if k < a.len() {
            assert(a.push(x)[k] == a[k]);
        }
    }
}

proof fn lemma_links_distinct(ofc: Seq<Option<TransitionId>>, ofe: Seq<Option<TransitionId>>, links: Seq<CausalLink>)
    ensures
        distinct_ends(from_links(ofc, ofe, links)),
    decreases links.len(),
{
    if links.len() > 0 {
        lemma_links_distinct(ofc, ofe, links.drop_last());
        let l = links.last();
        if l.eff_id < ofe.len() && ofe[l.eff_id as int] is Some && l.cond_id < ofc.len() && ofc[l.cond_id as int] is Some
            && ofe[l.eff_id as int]->0 != ofc[l.cond_id as int]->0 {
            lemma_distinct_ends_push(from_links(ofc, ofe, links.drop_last()), ((ofe[l.eff_id as int]->0, ofc[l.cond_id as int]->0), Some(l.active)));
        }
    }
}

proof fn lemma_to_effects_distinct(conds: Seq<Condition>, effs: Seq<Effect>, store: Seq<Transition>, o: TransitionId, ins: Seq<TransitionId>)
    ensures
        distinct_ends(to_effects(conds, effs, store, o, ins)),
    decreases ins.len(),
{
    if ins.len() > 0 {
        lemma_to_effects_distinct(conds, effs, store, o, ins.drop_last());
        if into_effect_ok(conds, effs, store, o, ins.last()) {
            lemma_distinct_ends_push(to_effects(conds, effs, store, o, ins.drop_last()), ((o, ins.last()), None));
        }
    }
}

proof fn lemma_to_conditions_distinct(conds: Seq<Condition>, effs: Seq<Effect>, store: Seq<Transition>, o: TransitionId, ins: Seq<TransitionId>)
    ensures
        distinct_ends(to_conditions(conds, effs, store, o, ins)),
    decreases ins.len(),
{
    if ins.len() > 0 {
        lemma_to_conditions_distinct(conds, effs, store, o, ins.drop_last());
        if into_condition_ok(conds, effs, store, o, ins.last()) {
            lemma_distinct_ends_push(to_conditions(conds, effs, store, o, ins.drop_last()), ((o, ins.last()), None));
        }
    }
}

proof fn lemma_from_effects_distinct(conds: Seq<Condition>, effs: Seq<Effect>, store: Seq<Transition>, outs: Seq<TransitionId>, ins: Seq<TransitionId>)
    ensures
        distinct_ends(from_effects(conds, effs, store, outs, ins)),
    decreases outs.len(),
{
    if outs.len() > 0 {
        lemma_from_effects_distinct(conds, effs, store, outs.drop_last(), ins);
        lemma_to_effects_distinct(conds, effs, store, outs.last(), ins);
        lemma_distinct_ends_concat(from_effects(conds, effs, store, outs.drop_last(), ins), to_effects(conds, effs, store, outs.last(), ins));
    }
}

proof fn lemma_from_conditions_distinct(
    conds: Seq<Condition>,
    effs: Seq<Effect>,
    store: Seq<Transition>,
    outs: Seq<TransitionId>,
    eff_ins: Seq<TransitionId>,
    cond_ins: Seq<TransitionId>,
)
    ensures
        distinct_ends(from_conditions(conds, effs, store, outs, eff_ins, cond_ins)),
    decreases outs.len(),
{
    if outs.len() > 0 {
        let o = outs.last();
        lemma_from_conditions_distinct(conds, effs, store, outs.drop_last(), eff_ins, cond_ins);
        lemma_to_effects_distinct(conds, effs, store, o, eff_ins);
        lemma_to_conditions_distinct(conds, effs, store, o, cond_ins);
        lemma_distinct_ends_concat(to_effects(conds, effs, store, o, eff_ins), to_conditions(conds, effs, store, o, cond_ins));
        let tail: Seq<SupportPair> = if out_condition_ok(conds, effs, store, o) {
            to_effects(conds, effs, store, o, eff_ins) + to_conditions(conds, effs, store, o, cond_ins)
        } else {
            seq![]
        };
        assert(distinct_ends(tail));
        lemma_distinct_ends_concat(from_conditions(conds, effs, store, outs.drop_last(), eff_ins, cond_ins), tail);
    }
}

/// The supports between transitions: from the causal links of the encoding, from effects to
/// the effects of tasks, and (when asked for) from conditions of tasks to effects and conditions.
pub struct Supports {
    pub with_condition_out_transitions: bool,
    unsorted_out: Vec<SupportPair>,
}

impl Supports {
    /// Whether supports from conditions were collected.
    pub closed spec fn with_conditions(&self) -> bool {
        self.with_condition_out_transitions
    }

    /// The supports, in the order they were found.
    pub closed spec fn unsorted(&self) -> Seq<SupportPair> {
        self.unsorted_out@
    }

    /// The supports between the transitions of `conditions` and `effects`: those of the causal
    /// links between two distinct transitions (with the link's literal); from each effect
    /// transition to each other effect transition of a task that is not a condition-effect,
    /// on the same fluent with arguments that may be equal; and, when
    /// `with_condition_out_transitions`, from each condition transition of a task that is not a
    /// condition-effect to such effect transitions, then to each other condition transition
    /// on the same fluent with arguments and read values that may be equal.
    pub fn from(
        transitions: &Transitions,
        conditions: &[Condition],
        effects: &[Effect],
        causal_links: &[CausalLink],
        with_condition_out_transitions: bool,
    ) -> (res: Supports)
        requires
            linked(conditions@, effects@, transitions.store(), transitions.of_conditions(), transitions.of_effects()),
        ensures
            res.with_conditions() == with_condition_out_transitions,
            distinct_ends(res.unsorted()),
            res.unsorted() == from_links(transitions.of_conditions(), transitions.of_effects(), causal_links@)
                + from_effects(conditions@, effects@, transitions.store(), somes(transitions.of_effects()), somes(transitions.of_effects()))
                + if with_condition_out_transitions {
                    from_conditions(conditions@, effects@, transitions.store(), somes(transitions.of_conditions()),
                        somes(transitions.of_effects()), somes(transitions.of_conditions()))
                } else {
                    seq![]
                },
    {
        let ghost ofc = transitions.of_conditions();
        let ghost ofe = transitions.of_effects();
        let ghost store = transitions.store();
        proof {
            lemma_linked_in_range(conditions@, effects@, store, ofc, ofe);
        }
        let mut res: Vec<SupportPair> = Vec::new();
        let mut l: usize = 0;
        while l < causal_links.len()
            invariant
                l <= causal_links@.len(),
                ofc == transitions.of_condition@,
                ofe == transitions.of_effect@,
                res@ == from_links(ofc, ofe, causal_links@.subrange(0, l as int)),
            decreases causal_links@.len() - l,
        {
            let cl = causal_links[l];
            proof {
                assert(causal_links@.subrange(0, l + 1).drop_last() =~= causal_links@.subrange(0, l as int));
                assert(causal_links@.subrange(0, l + 1).last() == cl);
            }
            match (transitions.of_effect(cl.eff_id), transitions.of_condition(cl.cond_id)) {
                (Some(o), Some(i)) => {
                    if o != i {
                        res.push(((o, i), Some(cl.active)));
                    }
                },
                _ => {},
            }
            l = l + 1;
        }
        assert(causal_links@.subrange(0, l as int) =~= causal_links@);
        let eff_ts = somes_exec(&transitions.of_effect, Ghost(store.len()));
        let cond_ts = somes_exec(&transitions.of_condition, Ghost(store.len()));
        let ghost r1 = res@;
        let mut a: usize = 0;
        while a < eff_ts.len()
            invariant
                a <= eff_ts@.len(),
                store == transitions.store@,
                in_range(conditions@, effects@, store),
                forall|k: int| 0 <= k < eff_ts@.len() ==> #[trigger] eff_ts@[k] < store.len(),
                res@ == r1 + from_effects(conditions@, effects@, store, eff_ts@.subrange(0, a as int), eff_ts@),
            decreases eff_ts@.len() - a,
        {
            let o = eff_ts[a];
            proof {
                assert(eff_ts@.subrange(0, a + 1).drop_last() =~= eff_ts@.subrange(0, a as int));
                assert(eff_ts@.subrange(0, a + 1).last() == o);
            }
            push_to_effects(conditions, effects, &transitions.store, o, &eff_ts, &mut res);
            assert(res@ =~= r1 + from_effects(conditions@, effects@, store, eff_ts@.subrange(0, a + 1), eff_ts@));
            a = a + 1;
        }
        assert(eff_ts@.subrange(0, a as int) =~= eff_ts@);
        if with_condition_out_transitions {
            let ghost r2 = res@;
            let mut a: usize = 0;
            while a < cond_ts.len()
                invariant
                    a <= cond_ts@.len(),
                    store == transitions.store@,
                    in_range(conditions@, effects@, store),
                    forall|k: int| 0 <= k < eff_ts@.len() ==> #[trigger] eff_ts@[k] < store.len(),
                    forall|k: int| 0 <= k < cond_ts@.len() ==> #[trigger] cond_ts@[k] < store.len(),
                    res@ == r2 + from_conditions(conditions@, effects@, store, cond_ts@.subrange(0, a as int), eff_ts@, cond_ts@),
                decreases cond_ts@.len() - a,
            {
                let o = cond_ts[a];
                proof {
                    assert(cond_ts@.subrange(0, a + 1).drop_last() =~= cond_ts@.subrange(0, a as int));
                    assert(cond_ts@.subrange(0, a + 1).last() == o);
                    assert(match store[o as int] {
                        Transition::Cond(c) => c < conditions@.len(),
                        Transition::Eff(e) => e < effects@.len(),
                        Transition::CondEff(c, e) => c < conditions@.len() && e < effects@.len(),
                    });
                }
                let tr = transitions.store[o];
                let cond_eff = match tr {
                    Transition::CondEff(_, _) => true,
                    _ => false,
                };
                let ghost r3 = res@;
                if src_of(conditions, effects, tr).is_some() && !cond_eff {
                    push_to_effects(conditions, effects, &transitions.store, o, &eff_ts, &mut res);
                    push_to_conditions(conditions, effects, &transitions.store, o, &cond_ts, &mut res);
                }
                assert(res@ =~= r2 + from_conditions(conditions@, effects@, store, cond_ts@.subrange(0, a + 1), eff_ts@, cond_ts@));
                a = a + 1;
            }
            assert(cond_ts@.subrange(0, a as int) =~= cond_ts@);
        }
        proof {
            lemma_links_distinct(ofc, ofe, causal_links@);
            lemma_from_effects_distinct(conditions@, effects@, store, eff_ts@, eff_ts@);
            lemma_distinct_ends_concat(from_links(ofc, ofe, causal_links@), from_effects(conditions@, effects@, store, eff_ts@, eff_ts@));
            lemma_from_conditions_distinct(conditions@, effects@, store, cond_ts@, eff_ts@, cond_ts@);
            let conds_part: Seq<SupportPair> = if with_condition_out_transitions {
                from_conditions(conditions@, effects@, store, cond_ts@, eff_ts@, cond_ts@)
            } else {
                seq![]
            };
            assert(distinct_ends(conds_part));
            lemma_distinct_ends_concat(
                from_links(ofc, ofe, causal_links@) + from_effects(conditions@, effects@, store, eff_ts@, eff_ts@),
                conds_part,
            );
        }
        Supports { with_condition_out_transitions, unsorted_out: res }
    }

    /// The supports sorted by (supporting, supported) transition then literal, and the same
    /// supports as (supported, supporting) pairs, sorted.
    pub fn sort(&self) -> (res: SupportsSorted)
        ensures
            sorted_keyed(res.sorted_out@),
            res.sorted_out@.to_multiset() == self.unsorted().to_multiset(),
            sorted_keyed(res.sorted_in@),
            res.sorted_in@.to_multiset() == self.unsorted().map_values(|p: SupportPair| (p.0.1, p.0.0)).to_multiset(),
    {
        let sorted_out = sort_keyed(&self.unsorted_out);
        let mut reversed: Vec<(TransitionId, TransitionId)> = Vec::new();
        let ghost all = self.unsorted().map_values(|p: SupportPair| (p.0.1, p.0.0));
        let mut k: usize = 0;
        while k < self.unsorted_out.len()
            invariant
                k <= self.unsorted_out@.len(),
                all == self.unsorted().map_values(|p: SupportPair| (p.0.1, p.0.0)),
                reversed@ == all.subrange(0, k as int),
            decreases self.unsorted_out@.len() - k,
        {
            let p = self.unsorted_out[k];
            reversed.push((p.0.1, p.0.0));
            assert(reversed@ =~= all.subrange(0, k + 1));
            k = k + 1;
        }
        assert(reversed@ =~= all);
        let sorted_in = sort_keyed(&reversed);
        SupportsSorted { sorted_out, sorted_in }
    }

    /// Whether supports from conditions were collected.
    pub fn collects_condition_supports(&self) -> (res: bool)
        ensures
            res == self.with_conditions(),
    {
        self.with_condition_out_transitions
    }

    /// The supports, in the order they were found.
    pub fn unsorted_out(&self) -> (res: &[SupportPair])
        ensures
            res@ == self.unsorted(),
    {
        self.unsorted_out.as_slice()
    }
}

} // verus!
