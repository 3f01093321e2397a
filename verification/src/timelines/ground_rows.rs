//! The ground rows of the LP relaxation of timelines: each lifted source, transition and
//! support decomposes into its groundings, and ground supports flow into and out of ground
//! transitions.
use vstd::prelude::*;
use crate::timelines::groundings::{IntCst, Source, SourceGroundingId, TaskId, TransitionGroundingId, TransitionId, SourcesGroundingsInfo, ids_of};
use crate::timelines::supports::{SourcedEntry, TransitionsGroundingsInfo, unsourced_in, SupportsGroundingsInfo, SupportEntry, OutEntry, InEntry, lemma_strictly_sorted_unique};
use crate::timelines::groundings::{strictly_sorted, merge_dedup_into};
use crate::timelines::transitions::{Transition, Transitions, Supports};
use crate::timelines::lprelax::{ColTag, LpRelaxProblem, RowExpr, RowExprType, RowView, Term};

verus! {

/// The number of leading elements of `s` whose key is `k`.
pub open spec fn lead<A, K>(s: Seq<A>, key: spec_fn(A) -> K, k: K) -> nat
    decreases s.len(),
{
    if s.len() > 0 && key(s[0]) == k {
        1 + lead(s.drop_first(), key, k)
    } else {
        0
    }
}

/// A run is no longer than the sequence, and has one element at least when the first
/// element starts it.
pub proof fn lemma_lead_bounds<A, K>(s: Seq<A>, key: spec_fn(A) -> K, k: K)
    ensures
        lead(s, key, k) <= s.len(),
        s.len() > 0 && key(s[0]) == k ==> lead(s, key, k) >= 1,
    decreases s.len(),
{
    if s.len() > 0 && key(s[0]) == k {
        lemma_lead_bounds(s.drop_first(), key, k);
    }
}

proof fn lemma_lead<A, K>(s: Seq<A>, key: spec_fn(A) -> K, k: K, m: int)
    requires
        0 <= m <= s.len(),
        forall|j: int| 0 <= j < m ==> key(#[trigger] s[j]) == k,
        m == s.len() || key(s[m]) != k,
    ensures
        lead(s, key, k) == m,
    decreases m,
{
    if m > 0 {
        assert(key(s[0]) == k);
        let t = s.drop_first();
        assert forall|j: int| 0 <= j < m - 1 implies key(#[trigger] t[j]) == k by {
            assert(t[j] == s[j + 1]);
        }
        if m < s.len() {
            assert(t[m - 1] == s[m]);
        }
        lemma_lead(t, key, k, m - 1);
    }
}

/// The maximal runs of consecutive elements with equal keys, in order.
pub open spec fn runs<A, K>(s: Seq<A>, key: spec_fn(A) -> K) -> Seq<Seq<A>>
    decreases s.len(),
{
    if s.len() == 0 {
        seq![]
    } else {
        let m = lead(s, key, key(s[0]));
        proof {
            lemma_lead_bounds(s, key, key(s[0]));
        }
        seq![s.take(m as int)] + runs(s.skip(m as int), key)
    }
}

/// The values held, in order.
pub open spec fn flatten_opts<T>(s: Seq<Option<T>>) -> Seq<T>
    decreases s.len(),
{
    if s.len() == 0 {
        seq![]
    } else {
        let r = flatten_opts(s.drop_first());
        match s[0] {
            Some(x) => seq![x] + r,
            None => r,
        }
    }
}

pub open spec fn opt_seq<T>(o: Option<T>) -> Seq<T> {
    match o {
        Some(x) => seq![x],
        None => seq![],
    }
}

/// The rows `f` makes of the runs of `s`.
pub open spec fn run_rows<A, K>(s: Seq<A>, key: spec_fn(A) -> K, f: spec_fn(Seq<A>) -> Option<RowView>) -> Seq<RowView> {
    flatten_opts(runs(s, key).map_values(f))
}

proof fn lemma_run_rows_step<A, K>(s: Seq<A>, key: spec_fn(A) -> K, f: spec_fn(Seq<A>) -> Option<RowView>, p: int, q: int)
    requires
        0 <= p < q <= s.len(),
        forall|j: int| p <= j < q ==> key(#[trigger] s[j]) == key(s[p]),
        q == s.len() || key(s[q]) != key(s[p]),
    ensures
        run_rows(s.subrange(p, s.len() as int), key, f) == opt_seq(f(s.subrange(p, q)))
            + run_rows(s.subrange(q, s.len() as int), key, f),
{
    let t = s.subrange(p, s.len() as int);
    let m = q - p;
    assert forall|j: int| 0 <= j < m implies key(#[trigger] t[j]) == key(t[0]) by {
        assert(t[j] == s[p + j]);
    }
    if q < s.len() {
        assert(t[m] == s[q]);
    }
    lemma_lead(t, key, key(t[0]), m);
    assert(t.take(m) =~= s.subrange(p, q));
    assert(t.skip(m) =~= s.subrange(q, s.len() as int));
    let rs = runs(t, key);
    assert(rs == seq![s.subrange(p, q)] + runs(s.subrange(q, s.len() as int), key));
    let mapped = rs.map_values(f);
    assert(mapped[0] == f(s.subrange(p, q)));
    assert(mapped.drop_first() =~= runs(s.subrange(q, s.len() as int), key).map_values(f));
}

proof fn lemma_run_rows_whole<A, K>(s: Seq<A>, key: spec_fn(A) -> K, f: spec_fn(Seq<A>) -> Option<RowView>)
    ensures
        run_rows(s.subrange(0, s.len() as int), key, f) == run_rows(s, key, f),
        run_rows(s.subrange(s.len() as int, s.len() as int), key, f) == Seq::<RowView>::empty(),
{
    assert(s.subrange(0, s.len() as int) =~= s);
    assert(s.subrange(s.len() as int, s.len() as int) =~= Seq::<A>::empty());
    assert(runs(Seq::<A>::empty(), key).map_values(f) =~= Seq::<Option<RowView>>::empty());
}

/// The row of a run of ground transitions of a same transition: its presence is that of one
/// of its groundings.
pub open spec fn transition_decomposition(run: Seq<(TransitionId, TransitionGroundingId)>) -> Option<RowView> {
    Some((
        RowExprType::Eq,
        1nat,
        seq![(1 as IntCst, ColTag::PresenceTransition(run[0].0, None))] + run.map_values(
            |x: (TransitionId, TransitionGroundingId)| (1 as IntCst, ColTag::PresenceTransition(x.0, Some(x.1))),
        ),
        0 as IntCst,
    ))
}

/// The row of a run of entries of a same ground transition: it is present as (or, when the
/// presences are not equivalent, at most as) one of the groundings of its source it was
/// posted for.
pub open spec fn grounding_source_row(pe: Seq<bool>, run: Seq<SourcedEntry>) -> Option<RowView> {
    Some((
        if pe[run[0].1 as int] { RowExprType::Eq } else { RowExprType::Leq },
        1nat,
        seq![(1 as IntCst, ColTag::PresenceTransition(run[0].1, Some(run[0].2)))] + run.map_values(
            |e: SourcedEntry| (1 as IntCst, ColTag::PresenceSource(run[0].0, Some(e.3))),
        ),
        0 as IntCst,
    ))
}

fn push_transition_decompositions(problem: &mut LpRelaxProblem, tg: &TransitionsGroundingsInfo)
    ensures
        final(problem).rows_view() == old(problem).rows_view() + run_rows(
            unsourced_in(tg.entries()),
            |x: (TransitionId, TransitionGroundingId)| x.0,
            |r: Seq<(TransitionId, TransitionGroundingId)>| transition_decomposition(r),
        ),
{
    let s = tg.iter_all_unsourced();
    let ghost key = |x: (TransitionId, TransitionGroundingId)| x.0;
    let ghost f = |r: Seq<(TransitionId, TransitionGroundingId)>| transition_decomposition(r);
    let ghost r0 = problem.rows_view();
    let ghost mut added: Seq<RowView> = Seq::empty();
    proof {
        lemma_run_rows_whole(s@, key, f);
    }
    let mut p: usize = 0;
    while p < s.len()
        invariant
            p <= s@.len(),
            key == (|x: (TransitionId, TransitionGroundingId)| x.0),
            f == (|r: Seq<(TransitionId, TransitionGroundingId)>| transition_decomposition(r)),
            problem.rows_view() == r0 + added,
            run_rows(s@, key, f) == added + run_rows(s@.subrange(p as int, s@.len() as int), key, f),
        decreases s@.len() - p,
    {
        let t = s[p].0;
        let mut terms: Vec<Term> = Vec::new();
        terms.push((1, ColTag::PresenceTransition(t, None)));
        let mut q: usize = p;
        while q < s.len() && s[q].0 == t
            invariant
                p <= q <= s@.len(),
                key == (|x: (TransitionId, TransitionGroundingId)| x.0),
                t == s@[p as int].0,
                forall|j: int| p <= j < q ==> key(#[trigger] s@[j]) == t,
                terms@ == seq![(1 as IntCst, ColTag::PresenceTransition(t, None))] + s@.subrange(p as int, q as int).map_values(
                    |x: (TransitionId, TransitionGroundingId)| (1 as IntCst, ColTag::PresenceTransition(x.0, Some(x.1))),
                ),
            decreases s@.len() - q,
        {
            terms.push((1, ColTag::PresenceTransition(s[q].0, Some(s[q].1))));
            assert(terms@ =~= seq![(1 as IntCst, ColTag::PresenceTransition(t, None))] + s@.subrange(p as int, q + 1).map_values(
                |x: (TransitionId, TransitionGroundingId)| (1 as IntCst, ColTag::PresenceTransition(x.0, Some(x.1))),
            ));
            q = q + 1;
        }
        let ghost tv = terms@;
        problem.push_row(RowExpr::new_eq_single_lhs(terms));
        proof {
            assert(q > p);
            lemma_run_rows_step(s@, key, f, p as int, q as int);
            assert(f(s@.subrange(p as int, q as int)) == Some((RowExprType::Eq, 1nat, tv, 0 as IntCst)));
            added = added + seq![(RowExprType::Eq, 1nat, tv, 0 as IntCst)];
            assert(problem.rows_view() =~= r0 + added);
        }
        p = q;
    }
}

proof fn lemma_flatten_push<T>(s: Seq<Option<T>>, x: Option<T>)
    ensures
        flatten_opts(s.push(x)) == flatten_opts(s) + opt_seq(x),
    decreases s.len(),
{
    if s.len() == 0 {
        assert(s.push(x).drop_first() =~= Seq::<Option<T>>::empty());
        assert(flatten_opts(Seq::<Option<T>>::empty()) =~= Seq::<T>::empty());
        assert(flatten_opts(s) =~= Seq::<T>::empty());
        assert(flatten_opts(s.push(x)) =~= opt_seq(x));
    } else {
        lemma_flatten_push(s.drop_first(), x);
        assert(s.push(x).drop_first() =~= s.drop_first().push(x));
        assert(s.push(x)[0] == s[0]);
        match s[0] {
            Some(y) => {
                assert(flatten_opts(s.push(x)) =~= seq![y] + (flatten_opts(s.drop_first()) + opt_seq(x)));
            },
            None => {},
        }
    }
}

fn push_grounding_source_rows(problem: &mut LpRelaxProblem, tg: &TransitionsGroundingsInfo, pe: &[bool])
    requires
        forall|k: int| 0 <= k < tg.entries().len() ==> (#[trigger] tg.entries()[k]).1 < pe@.len(),
    ensures
        final(problem).rows_view() == old(problem).rows_view() + run_rows(
            tg.entries(),
            |e: SourcedEntry| (e.1, e.2),
            |r: Seq<SourcedEntry>| grounding_source_row(pe@, r),
        ),
{
    let s = tg.iter_all_sourced();
    let ghost key = |e: SourcedEntry| (e.1, e.2);
    let ghost f = |r: Seq<SourcedEntry>| grounding_source_row(pe@, r);
    let ghost r0 = problem.rows_view();
    let ghost mut added: Seq<RowView> = Seq::empty();
    proof {
        lemma_run_rows_whole(s@, key, f);
    }
    let mut p: usize = 0;
    while p < s.len()
        invariant
            p <= s@.len(),
            key == (|e: SourcedEntry| (e.1, e.2)),
            f == (|r: Seq<SourcedEntry>| grounding_source_row(pe@, r)),
            forall|k: int| 0 <= k < s@.len() ==> (#[trigger] s@[k]).1 < pe@.len(),
            problem.rows_view() == r0 + added,
            run_rows(s@, key, f) == added + run_rows(s@.subrange(p as int, s@.len() as int), key, f),
        decreases s@.len() - p,
    {
        let e0 = s[p];
        let mut terms: Vec<Term> = Vec::new();
        terms.push((1, ColTag::PresenceTransition(e0.1, Some(e0.2))));
        let mut q: usize = p;
        while q < s.len() && s[q].1 == e0.1 && s[q].2 == e0.2
            invariant
                p <= q <= s@.len(),
                key == (|e: SourcedEntry| (e.1, e.2)),
                e0 == s@[p as int],
                forall|j: int| p <= j < q ==> key(#[trigger] s@[j]) == key(e0),
                terms@ == seq![(1 as IntCst, ColTag::PresenceTransition(e0.1, Some(e0.2)))] + s@.subrange(p as int, q as int).map_values(
                    |e: SourcedEntry| (1 as IntCst, ColTag::PresenceSource(e0.0, Some(e.3))),
                ),
            decreases s@.len() - q,
        {
            terms.push((1, ColTag::PresenceSource(e0.0, Some(s[q].3))));
            assert(terms@ =~= seq![(1 as IntCst, ColTag::PresenceTransition(e0.1, Some(e0.2)))] + s@.subrange(p as int, q + 1).map_values(
                |e: SourcedEntry| (1 as IntCst, ColTag::PresenceSource(e0.0, Some(e.3))),
            ));
            q = q + 1;
        }
        let ghost tv = terms@;
        let eq = pe[e0.1];
        let ghost tpe = if eq { RowExprType::Eq } else { RowExprType::Leq };
        if eq {
            problem.push_row(RowExpr::new_eq_single_lhs(terms));
        } else {
            problem.push_row(RowExpr::new_leq_single_lhs(terms));
        }
        proof {
            assert(q > p);
            lemma_run_rows_step(s@, key, f, p as int, q as int);
            assert(s@.subrange(p as int, q as int)[0] == e0);
            assert(f(s@.subrange(p as int, q as int)) == Some((tpe, 1nat, tv, 0 as IntCst)));
            added = added + seq![(tpe, 1nat, tv, 0 as IntCst)];
            assert(problem.rows_view() =~= r0 + added);
        }
        p = q;
    }
}

/// The terms of the ground supports of an entry of support `(o, i)`.
pub open spec fn ground_support_term(o: TransitionId, i: TransitionId, e: SupportEntry) -> Option<Term> {
    match e.2 {
        Some(p) => Some((1 as IntCst, ColTag::Support(o, i, Some(p)))),
        None => None,
    }
}

/// The row of a run of entries of a same support: it is taken as one of its ground supports.
pub open spec fn support_decomposition(run: Seq<SupportEntry>) -> Option<RowView> {
    Some((
        RowExprType::Eq,
        1nat,
        seq![(1 as IntCst, ColTag::Support(run[0].0, run[0].1, None))] + flatten_opts(run.map_values(
            |e: SupportEntry| ground_support_term(run[0].0, run[0].1, e),
        )),
        0 as IntCst,
    ))
}

fn push_support_decompositions(problem: &mut LpRelaxProblem, sg: &SupportsGroundingsInfo)
    ensures
        final(problem).rows_view() == old(problem).rows_view() + run_rows(
            sg.entries(),
            |e: SupportEntry| (e.0, e.1),
            |r: Seq<SupportEntry>| support_decomposition(r),
        ),
{
    let s = sg.iter_all();
    let ghost key = |e: SupportEntry| (e.0, e.1);
    let ghost f = |r: Seq<SupportEntry>| support_decomposition(r);
    let ghost r0 = problem.rows_view();
    let ghost mut added: Seq<RowView> = Seq::empty();
    proof {
        lemma_run_rows_whole(s@, key, f);
    }
    let mut p: usize = 0;
    while p < s.len()
        invariant
            p <= s@.len(),
            key == (|e: SupportEntry| (e.0, e.1)),
            f == (|r: Seq<SupportEntry>| support_decomposition(r)),
            problem.rows_view() == r0 + added,
            run_rows(s@, key, f) == added + run_rows(s@.subrange(p as int, s@.len() as int), key, f),
        decreases s@.len() - p,
    {
        let e0 = s[p];
        let o = e0.0;
        let i = e0.1;
        let mut terms: Vec<Term> = Vec::new();
        terms.push((1, ColTag::Support(o, i, None)));
        let mut q: usize = p;
        while q < s.len() && s[q].0 == o && s[q].1 == i
            invariant
                p <= q <= s@.len(),
                key == (|e: SupportEntry| (e.0, e.1)),
                e0 == s@[p as int],
                o == e0.0,
                i == e0.1,
                forall|j: int| p <= j < q ==> key(#[trigger] s@[j]) == key(e0),
                terms@ == seq![(1 as IntCst, ColTag::Support(o, i, None))] + flatten_opts(s@.subrange(p as int, q as int).map_values(
                    |e: SupportEntry| ground_support_term(o, i, e),
                )),
            decreases s@.len() - q,
        {
            let e = s[q];
            proof {
                assert(s@.subrange(p as int, q + 1).map_values(|e: SupportEntry| ground_support_term(o, i, e))
                    =~= s@.subrange(p as int, q as int).map_values(|e: SupportEntry| ground_support_term(o, i, e)).push(ground_support_term(o, i, e)));
                lemma_flatten_push(s@.subrange(p as int, q as int).map_values(|e: SupportEntry| ground_support_term(o, i, e)), ground_support_term(o, i, e));
            }
            match e.2 {
                Some(pp) => {
                    terms.push((1, ColTag::Support(o, i, Some(pp))));
                },
                None => {},
            }
            assert(terms@ =~= seq![(1 as IntCst, ColTag::Support(o, i, None))] + flatten_opts(s@.subrange(p as int, q + 1).map_values(
                |e: SupportEntry| ground_support_term(o, i, e),
            )));
            q = q + 1;
        }
        let ghost tv = terms@;
        problem.push_row(RowExpr::new_eq_single_lhs(terms));
        proof {
            assert(q > p);
            lemma_run_rows_step(s@, key, f, p as int, q as int);
            assert(s@.subrange(p as int, q as int)[0] == e0);
            assert(f(s@.subrange(p as int, q as int)) == Some((RowExprType::Eq, 1nat, tv, 0 as IntCst)));
            added = added + seq![(RowExprType::Eq, 1nat, tv, 0 as IntCst)];
            assert(problem.rows_view() =~= r0 + added);
        }
        p = q;
    }
}

/// The term of the ground support of an entry into ground transition `(i, ig)`.
pub open spec fn inflow_term(i: TransitionId, ig: TransitionGroundingId, x: InEntry) -> Option<Term> {
    match x.2 {
        Some(sp) => Some((1 as IntCst, ColTag::Support(sp.0, i, Some((sp.1, ig))))),
        None => None,
    }
}

/// The row of a run of entries into a same ground transition: its presence equals the sum of
/// its ground supports, or is at least it for an effect when no closed-world default was
/// recovered.
pub open spec fn inflow_ground_row(store: Seq<Transition>, cw_empty: bool, run: Seq<InEntry>) -> Option<RowView> {
    Some((
        if cw_empty && store[run[0].0 as int] is Eff { RowExprType::Geq } else { RowExprType::Eq },
        1nat,
        seq![(1 as IntCst, ColTag::PresenceTransition(run[0].0, Some(run[0].1)))] + flatten_opts(run.map_values(
            |x: InEntry| inflow_term(run[0].0, run[0].1, x),
        )),
        0 as IntCst,
    ))
}

fn push_inflow_ground_rows(problem: &mut LpRelaxProblem, transitions: &Transitions, sg: &SupportsGroundingsInfo, cw_empty: bool)
    requires
        forall|k: int| 0 <= k < sg.in_entries().len() ==> (#[trigger] sg.in_entries()[k]).0 < transitions.store().len(),
    ensures
        final(problem).rows_view() == old(problem).rows_view() + run_rows(
            sg.in_entries(),
            |x: InEntry| (x.0, x.1),
            |r: Seq<InEntry>| inflow_ground_row(transitions.store(), cw_empty, r),
        ),
{
    let s = sg.iter_in_all();
    let ghost store = transitions.store();
    let ghost key = |x: InEntry| (x.0, x.1);
    let ghost f = |r: Seq<InEntry>| inflow_ground_row(store, cw_empty, r);
    let ghost r0 = problem.rows_view();
    let ghost mut added: Seq<RowView> = Seq::empty();
    proof {
        lemma_run_rows_whole(s@, key, f);
    }
    let mut p: usize = 0;
    while p < s.len()
        invariant
            p <= s@.len(),
            store == transitions.store(),
            key == (|x: InEntry| (x.0, x.1)),
            f == (|r: Seq<InEntry>| inflow_ground_row(store, cw_empty, r)),
            forall|k: int| 0 <= k < s@.len() ==> (#[trigger] s@[k]).0 < store.len(),
            problem.rows_view() == r0 + added,
            run_rows(s@, key, f) == added + run_rows(s@.subrange(p as int, s@.len() as int), key, f),
        decreases s@.len() - p,
    {
        let e0 = s[p];
        let i = e0.0;
        let ig = e0.1;
        let mut terms: Vec<Term> = Vec::new();
        terms.push((1, ColTag::PresenceTransition(i, Some(ig))));
        let mut q: usize = p;
        while q < s.len() && s[q].0 == i && s[q].1 == ig
            invariant
                p <= q <= s@.len(),
                key == (|x: InEntry| (x.0, x.1)),
                e0 == s@[p as int],
                i == e0.0,
                ig == e0.1,
                forall|j: int| p <= j < q ==> key(#[trigger] s@[j]) == key(e0),
                terms@ == seq![(1 as IntCst, ColTag::PresenceTransition(i, Some(ig)))] + flatten_opts(s@.subrange(p as int, q as int).map_values(
                    |x: InEntry| inflow_term(i, ig, x),
                )),
            decreases s@.len() - q,
        {
            let x = s[q];
            proof {
                assert(s@.subrange(p as int, q + 1).map_values(|x: InEntry| inflow_term(i, ig, x))
                    =~= s@.subrange(p as int, q as int).map_values(|x: InEntry| inflow_term(i, ig, x)).push(inflow_term(i, ig, x)));
                lemma_flatten_push(s@.subrange(p as int, q as int).map_values(|x: InEntry| inflow_term(i, ig, x)), inflow_term(i, ig, x));
            }
            match x.2 {
                Some(sp) => {
                    terms.push((1, ColTag::Support(sp.0, i, Some((sp.1, ig)))));
                },
                None => {},
            }
            assert(terms@ =~= seq![(1 as IntCst, ColTag::PresenceTransition(i, Some(ig)))] + flatten_opts(s@.subrange(p as int, q + 1).map_values(
                |x: InEntry| inflow_term(i, ig, x),
            )));
            q = q + 1;
        }
        let ghost tv = terms@;
        let is_eff = match transitions.get(i) {
            Transition::Eff(_) => true,
            _ => false,
        };
        let tpe = if cw_empty && is_eff {
            RowExprType::Geq
        } else {
            RowExprType::Eq
        };
        problem.push_row(RowExpr::new(tpe, terms, 1, 0));
        proof {
            assert(q > p);
            lemma_run_rows_step(s@, key, f, p as int, q as int);
            assert(s@.subrange(p as int, q as int)[0] == e0);
            assert(f(s@.subrange(p as int, q as int)) == Some((tpe, 1nat, tv, 0 as IntCst)));
            added = added + seq![(tpe, 1nat, tv, 0 as IntCst)];
            assert(problem.rows_view() =~= r0 + added);
        }
        p = q;
    }
}

/// The term of the ground support of an entry out of ground transition `(o, og)`, when it
/// counts in its outflow (supports into pure conditions count only when conditions support).
pub open spec fn outflow_term(store: Seq<Transition>, with_conditions: bool, o: TransitionId, og: TransitionGroundingId, x: OutEntry) -> Option<Term> {
    if with_conditions || !(store[x.2.0 as int] is Cond) {
        Some((1 as IntCst, ColTag::Support(o, x.2.0, Some((og, x.2.1)))))
    } else {
        None
    }
}

/// The row of a run of entries out of a same ground transition, when one counts: its
/// presence is at most the sum of its counted ground supports.
pub open spec fn outflow_ground_row(store: Seq<Transition>, with_conditions: bool, run: Seq<OutEntry>) -> Option<RowView> {
    let terms = seq![(1 as IntCst, ColTag::PresenceTransition(run[0].0, Some(run[0].1)))] + flatten_opts(run.map_values(
        |x: OutEntry| outflow_term(store, with_conditions, run[0].0, run[0].1, x),
    ));
    if terms.len() >= 2 {
        Some((RowExprType::Geq, 1nat, terms, 0 as IntCst))
    } else {
        None
    }
}

fn push_outflow_ground_rows(problem: &mut LpRelaxProblem, transitions: &Transitions, sg: &SupportsGroundingsInfo, with_conditions: bool)
    requires
        forall|k: int| 0 <= k < sg.out_entries().len() ==> (#[trigger] sg.out_entries()[k]).2.0 < transitions.store().len(),
    ensures
        final(problem).rows_view() == old(problem).rows_view() + run_rows(
            sg.out_entries(),
            |x: OutEntry| (x.0, x.1),
            |r: Seq<OutEntry>| outflow_ground_row(transitions.store(), with_conditions, r),
        ),
{
    let s = sg.iter_out_all();
    let ghost store = transitions.store();
    let ghost key = |x: OutEntry| (x.0, x.1);
    let ghost f = |r: Seq<OutEntry>| outflow_ground_row(store, with_conditions, r);
    let ghost r0 = problem.rows_view();
    let ghost mut added: Seq<RowView> = Seq::empty();
    proof {
        lemma_run_rows_whole(s@, key, f);
    }
    let mut p: usize = 0;
    while p < s.len()
        invariant
            p <= s@.len(),
            store == transitions.store(),
            key == (|x: OutEntry| (x.0, x.1)),
            f == (|r: Seq<OutEntry>| outflow_ground_row(store, with_conditions, r)),
            forall|k: int| 0 <= k < s@.len() ==> (#[trigger] s@[k]).2.0 < store.len(),
            problem.rows_view() == r0 + added,
            run_rows(s@, key, f) == added + run_rows(s@.subrange(p as int, s@.len() as int), key, f),
        decreases s@.len() - p,
    {
        let e0 = s[p];
        let o = e0.0;
        let og = e0.1;
        let mut terms: Vec<Term> = Vec::new();
        terms.push((1, ColTag::PresenceTransition(o, Some(og))));
        let mut q: usize = p;
        while q < s.len() && s[q].0 == o && s[q].1 == og
            invariant
                p <= q <= s@.len(),
                store == transitions.store(),
                forall|k: int| 0 <= k < s@.len() ==> (#[trigger] s@[k]).2.0 < store.len(),
                key == (|x: OutEntry| (x.0, x.1)),
                e0 == s@[p as int],
                o == e0.0,
                og == e0.1,
                forall|j: int| p <= j < q ==> key(#[trigger] s@[j]) == key(e0),
                terms@ == seq![(1 as IntCst, ColTag::PresenceTransition(o, Some(og)))] + flatten_opts(s@.subrange(p as int, q as int).map_values(
                    |x: OutEntry| outflow_term(store, with_conditions, o, og, x),
                )),
            decreases s@.len() - q,
        {
            let x = s[q];
            proof {
                assert(s@.subrange(p as int, q + 1).map_values(|x: OutEntry| outflow_term(store, with_conditions, o, og, x))
                    =~= s@.subrange(p as int, q as int).map_values(|x: OutEntry| outflow_term(store, with_conditions, o, og, x)).push(
                        outflow_term(store, with_conditions, o, og, x)));
                lemma_flatten_push(s@.subrange(p as int, q as int).map_values(|x: OutEntry| outflow_term(store, with_conditions, o, og, x)),
                    outflow_term(store, with_conditions, o, og, x));
            }
            let is_cond = match transitions.get(x.2.0) {
                Transition::Cond(_) => true,
                _ => false,
            };
            if with_conditions || !is_cond {
                terms.push((1, ColTag::Support(o, x.2.0, Some((og, x.2.1)))));
            }
            assert(terms@ =~= seq![(1 as IntCst, ColTag::PresenceTransition(o, Some(og)))] + flatten_opts(s@.subrange(p as int, q + 1).map_values(
                |x: OutEntry| outflow_term(store, with_conditions, o, og, x),
            )));
            q = q + 1;
        }
        let ghost tv = terms@;
        let pushed = terms.len() >= 2;
        if pushed {
            problem.push_row(RowExpr::new_geq_single_lhs(terms));
        }
        proof {
            assert(q > p);
            lemma_run_rows_step(s@, key, f, p as int, q as int);
            assert(s@.subrange(p as int, q as int)[0] == e0);
            let chunk: Seq<RowView> = if tv.len() >= 2 { seq![(RowExprType::Geq, 1nat, tv, 0 as IntCst)] } else { seq![] };
            assert(opt_seq(f(s@.subrange(p as int, q as int))) == chunk);
            added = added + chunk;
            assert(problem.rows_view() =~= r0 + added);
        }
        p = q;
    }
}

/// The row of a source that has groundings: it is present as one of them.
pub open spec fn source_decomposition(s: Source, ids: Seq<SourceGroundingId>) -> Seq<RowView> {
    let terms = seq![(1 as IntCst, ColTag::PresenceSource(s, None))] + ids.map_values(
        |g: SourceGroundingId| (1 as IntCst, ColTag::PresenceSource(s, Some(g))),
    );
    if terms.len() >= 2 {
        seq![(RowExprType::Eq, 1nat, terms, 0 as IntCst)]
    } else {
        seq![]
    }
}

/// The source rows of the tasks of index below `k` that have transitions.
pub open spec fn task_decompositions(tr: Transitions, posted: Seq<(Source, Seq<IntCst>)>, k: nat) -> Seq<RowView>
    decreases k,
{
    if k == 0 {
        seq![]
    } else {
        let s = Some(TaskId { id: (k - 1) as usize });
        task_decompositions(tr, posted, (k - 1) as nat) + if tr.of_source_view(s).len() > 0 {
            source_decomposition(s, ids_of(posted, s))
        } else {
            seq![]
        }
    }
}

fn push_source_decomposition(problem: &mut LpRelaxProblem, s: Source, ids: &[SourceGroundingId])
    ensures
        final(problem).rows_view() == old(problem).rows_view() + source_decomposition(s, ids@),
{
    let mut terms: Vec<Term> = Vec::new();
    terms.push((1, ColTag::PresenceSource(s, None)));
    let mut k: usize = 0;
    while k < ids.len()
        invariant
            k <= ids@.len(),
            terms@ == seq![(1 as IntCst, ColTag::PresenceSource(s, None))] + ids@.subrange(0, k as int).map_values(
                |g: SourceGroundingId| (1 as IntCst, ColTag::PresenceSource(s, Some(g))),
            ),
        decreases ids@.len() - k,
    {
        terms.push((1, ColTag::PresenceSource(s, Some(ids[k]))));
        assert(terms@ =~= seq![(1 as IntCst, ColTag::PresenceSource(s, None))] + ids@.subrange(0, k + 1).map_values(
            |g: SourceGroundingId| (1 as IntCst, ColTag::PresenceSource(s, Some(g))),
        ));
        k = k + 1;
    }
    assert(ids@.subrange(0, k as int) =~= ids@);
    if terms.len() >= 2 {
        problem.push_row(RowExpr::new_eq_single_lhs(terms));
    }
}

/// The row of a ground support into a pure condition, when conditions do not support: the
/// supporting ground transition is present.
pub open spec fn ground_support_presence_rows(store: Seq<Transition>, with_conditions: bool, es: Seq<SupportEntry>) -> Seq<RowView>
    decreases es.len(),
{
    if es.len() == 0 {
        seq![]
    } else {
        let e = es.last();
        let r = ground_support_presence_rows(store, with_conditions, es.drop_last());
        if e.2 is Some && !with_conditions && store[e.1 as int] is Cond {
            r.push((
                RowExprType::Leq,
                1nat,
                seq![(1 as IntCst, ColTag::Support(e.0, e.1, e.2)), (1 as IntCst, ColTag::PresenceTransition(e.0, Some((e.2->0).0)))],
                0 as IntCst,
            ))
        } else {
            r
        }
    }
}

fn push_ground_support_presence_rows(problem: &mut LpRelaxProblem, transitions: &Transitions, sg: &SupportsGroundingsInfo, with_conditions: bool)
    requires
        forall|k: int| 0 <= k < sg.entries().len() ==> (#[trigger] sg.entries()[k]).1 < transitions.store().len(),
    ensures
        final(problem).rows_view() == old(problem).rows_view() + ground_support_presence_rows(transitions.store(), with_conditions, sg.entries()),
{
    let s = sg.iter_all();
    let ghost r0 = problem.rows_view();
    let mut k: usize = 0;
    while k < s.len()
        invariant
            k <= s@.len(),
            s@ == sg.entries(),
            forall|k: int| 0 <= k < sg.entries().len() ==> (#[trigger] sg.entries()[k]).1 < transitions.store().len(),
            problem.rows_view() == r0 + ground_support_presence_rows(transitions.store(), with_conditions, s@.subrange(0, k as int)),
        decreases s@.len() - k,
    {
        let e = s[k];
        proof {
            assert(s@.subrange(0, k + 1).drop_last() =~= s@.subrange(0, k as int));
            assert(s@.subrange(0, k + 1).last() == e);
            assert(sg.entries()[k as int] == e);
        }
        let is_cond = match transitions.get(e.1) {
            Transition::Cond(_) => true,
            _ => false,
        };
        match e.2 {
            Some(pp) => {
                if !with_conditions && is_cond {
                    let mut terms: Vec<Term> = Vec::new();
                    terms.push((1, ColTag::Support(e.0, e.1, Some(pp))));
                    terms.push((1, ColTag::PresenceTransition(e.0, Some(pp.0))));
                    assert(terms@ =~= seq![(1 as IntCst, ColTag::Support(e.0, e.1, e.2)), (1 as IntCst, ColTag::PresenceTransition(e.0, Some((e.2->0).0)))]);
                    problem.push_row(RowExpr::new_leq_single_lhs(terms));
                }
            },
            None => {},
        }
        assert(problem.rows_view() =~= r0 + ground_support_presence_rows(transitions.store(), with_conditions, s@.subrange(0, k + 1)));
        k = k + 1;
    }
    assert(s@.subrange(0, k as int) =~= s@);
}

/// Pushes the ground rows of the LP relaxation: each source of transitions with groundings, each
/// transition and each support is one of its groundings; a ground transition is present as
/// (or at most as, when `presences_equivalent` says their presences differ) one of the
/// groundings of its source it was posted for; ground supports into pure conditions need
/// their supporter; then the inflow rows of ground transitions, the rows bounding by one the
/// ground supports into the effects on each ground state variable (when no default initial
/// effect was recovered, effect inflows are only bounded from below, and these rows make up
/// for it; otherwise effect inflows are equalities), and the outflow rows.
pub fn encode_problem_ground(
    transitions: &Transitions,
    supports: &Supports,
    sources_ground: &SourcesGroundingsInfo,
    transitions_ground: &TransitionsGroundingsInfo,
    supports_ground: &SupportsGroundingsInfo,
    presences_equivalent: &[bool],
    problem: &mut LpRelaxProblem,
)
    requires
        sources_ground.wf(),
        forall|k: int| 0 <= k < transitions_ground.entries().len() ==> (#[trigger] transitions_ground.entries()[k]).1 < presences_equivalent@.len(),
        forall|k: int| 0 <= k < supports_ground.entries().len() ==> (#[trigger] supports_ground.entries()[k]).1 < transitions.store().len(),
        forall|k: int| 0 <= k < supports_ground.in_entries().len() ==> (#[trigger] supports_ground.in_entries()[k]).0 < transitions.store().len(),
        forall|k: int| 0 <= k < supports_ground.out_entries().len() ==> (#[trigger] supports_ground.out_entries()[k]).2.0 < transitions.store().len(),
    ensures
        final(problem).rows_view() == old(problem).rows_view()
            + source_decomposition(None, ids_of(sources_ground.posted(), None))
            + task_decompositions(*transitions, sources_ground.posted(), transitions.tasks_listed())
            + run_rows(
                unsourced_in(transitions_ground.entries()),
                |x: (TransitionId, TransitionGroundingId)| x.0,
                |r: Seq<(TransitionId, TransitionGroundingId)>| transition_decomposition(r),
            )
            + run_rows(
                transitions_ground.entries(),
                |e: SourcedEntry| (e.1, e.2),
                |r: Seq<SourcedEntry>| grounding_source_row(presences_equivalent@, r),
            )
            + ground_support_presence_rows(transitions.store(), supports.with_conditions(), supports_ground.entries())
            + run_rows(supports_ground.entries(), |e: SupportEntry| (e.0, e.1), |r: Seq<SupportEntry>| support_decomposition(r))
            + run_rows(
                supports_ground.in_entries(),
                |x: InEntry| (x.0, x.1),
                |r: Seq<InEntry>| inflow_ground_row(transitions.store(), transitions.recovered_count() == 0, r),
            )
            + if transitions.recovered_count() == 0 {
                run_rows(
                    effect_groundings(transitions.store(), supports_ground.in_entries()),
                    |g: TransitionGroundingId| g.state_var_grounding_id,
                    |r: Seq<TransitionGroundingId>| state_var_inflow_row(transitions.store(), supports_ground.in_entries(), r),
                )
            } else {
                Seq::<RowView>::empty()
            }
            + run_rows(
                supports_ground.out_entries(),
                |x: OutEntry| (x.0, x.1),
                |r: Seq<OutEntry>| outflow_ground_row(transitions.store(), supports.with_conditions(), r),
            ),
{
    let ghost posted = sources_ground.posted();
    push_source_decomposition(problem, None, sources_ground.get(None));
    let ghost r1 = problem.rows_view();
    let n = transitions.tasks_listed_len();
    let mut k: usize = 0;
    while k < n
        invariant
            k <= n,
            n == transitions.tasks_listed(),
            sources_ground.wf(),
            posted == sources_ground.posted(),
            problem.rows_view() == r1 + task_decompositions(*transitions, posted, k as nat),
        decreases n - k,
    {
        let s = Some(TaskId { id: k });
        let ghost before = problem.rows_view();
        if transitions.of_source(s).len() > 0 {
            push_source_decomposition(problem, s, sources_ground.get(s));
        }
        assert(problem.rows_view() =~= r1 + task_decompositions(*transitions, posted, (k + 1) as nat));
        k = k + 1;
    }
    push_transition_decompositions(problem, transitions_ground);
    push_grounding_source_rows(problem, transitions_ground, presences_equivalent);
    let with_conditions = supports.collects_condition_supports();
    push_ground_support_presence_rows(problem, transitions, supports_ground, with_conditions);
    push_support_decompositions(problem, supports_ground);
    let cw_empty = transitions.are_recovered_closed_world_default_effects_empty();
    push_inflow_ground_rows(problem, transitions, supports_ground, cw_empty);
    if cw_empty {
        push_state_var_inflow_rows(problem, transitions, supports_ground);
    }
    push_outflow_ground_rows(problem, transitions, supports_ground, with_conditions);
}

/// The entry goes into an effect transition.
pub open spec fn into_effect(store: Seq<Transition>, x: InEntry) -> bool {
    store[x.0 as int] is Eff
}

/// The groundings of the effect transitions that ground supports go into, strictly sorted.
pub open spec fn effect_groundings(store: Seq<Transition>, ins: Seq<InEntry>) -> Seq<TransitionGroundingId> {
    choose|s: Seq<TransitionGroundingId>| strictly_sorted(s) && forall|g: TransitionGroundingId| #[trigger] s.contains(g)
        <==> exists|k: int| 0 <= k < ins.len() && #[trigger] ins[k].1 == g && into_effect(store, ins[k])
}

/// The term of a ground support into an effect with grounding `ig`.
pub open spec fn effect_inflow_term(store: Seq<Transition>, ig: TransitionGroundingId, x: InEntry) -> Option<Term> {
    if x.1 == ig && into_effect(store, x) && x.2 is Some {
        Some((1 as IntCst, ColTag::Support((x.2->0).0, x.0, Some(((x.2->0).1, ig)))))
    } else {
        None
    }
}

/// The ground supports into effects with grounding `ig`, in order.
pub open spec fn grounding_inflow_terms(store: Seq<Transition>, ins: Seq<InEntry>, ig: TransitionGroundingId) -> Seq<Term> {
    flatten_opts(ins.map_values(|x: InEntry| effect_inflow_term(store, ig, x)))
}

/// The ground supports into effects with the groundings of `igs`, grounding by grounding.
pub open spec fn state_var_inflow_terms(store: Seq<Transition>, ins: Seq<InEntry>, igs: Seq<TransitionGroundingId>) -> Seq<Term>
    decreases igs.len(),
{
    if igs.len() == 0 {
        seq![]
    } else {
        state_var_inflow_terms(store, ins, igs.drop_last()) + grounding_inflow_terms(store, ins, igs.last())
    }
}

/// At most one ground support goes into the effects on a same ground state variable.
pub open spec fn state_var_inflow_row(store: Seq<Transition>, ins: Seq<InEntry>, igs: Seq<TransitionGroundingId>) -> Option<RowView> {
    let terms = state_var_inflow_terms(store, ins, igs);
    if terms.len() > 0 {
        Some((RowExprType::Leq, terms.len(), terms, 1 as IntCst))
    } else {
        None
    }
}

fn push_grounding_inflow_terms(transitions: &Transitions, ins: &[InEntry], ig: TransitionGroundingId, terms: &mut Vec<Term>)
    requires
        forall|k: int| 0 <= k < ins@.len() ==> (#[trigger] ins@[k]).0 < transitions.store().len(),
    ensures
        final(terms)@ == old(terms)@ + grounding_inflow_terms(transitions.store(), ins@, ig),
{
    let ghost store = transitions.store();
    let ghost t0 = terms@;
    let mut k: usize = 0;
    assert(ins@.subrange(0, 0).map_values(|x: InEntry| effect_inflow_term(store, ig, x)) =~= Seq::<Option<Term>>::empty());
    assert(flatten_opts(Seq::<Option<Term>>::empty()) =~= Seq::<Term>::empty());
    while k < ins.len()
        invariant
            k <= ins@.len(),
            store == transitions.store(),
            forall|k: int| 0 <= k < ins@.len() ==> (#[trigger] ins@[k]).0 < store.len(),
            terms@ == t0 + flatten_opts(ins@.subrange(0, k as int).map_values(|x: InEntry| effect_inflow_term(store, ig, x))),
        decreases ins@.len() - k,
    {
        let x = ins[k];
        proof {
            assert(ins@.subrange(0, k + 1).map_values(|x: InEntry| effect_inflow_term(store, ig, x))
                =~= ins@.subrange(0, k as int).map_values(|x: InEntry| effect_inflow_term(store, ig, x)).push(effect_inflow_term(store, ig, x)));
            lemma_flatten_push(ins@.subrange(0, k as int).map_values(|x: InEntry| effect_inflow_term(store, ig, x)), effect_inflow_term(store, ig, x));
        }
        let is_eff = match transitions.get(x.0) {
            Transition::Eff(_) => true,
            _ => false,
        };
        if x.1 == ig && is_eff {
            match x.2 {
                Some(sp) => {
                    terms.push((1, ColTag::Support(sp.0, x.0, Some((sp.1, ig)))));
                },
                None => {},
            }
        }
        assert(terms@ =~= t0 + flatten_opts(ins@.subrange(0, k + 1).map_values(|x: InEntry| effect_inflow_term(store, ig, x))));
        k = k + 1;
    }
    assert(ins@.subrange(0, k as int) =~= ins@);
}

fn effect_groundings_exec(transitions: &Transitions, ins: &[InEntry]) -> (res: Vec<TransitionGroundingId>)
    requires
        forall|k: int| 0 <= k < ins@.len() ==> (#[trigger] ins@[k]).0 < transitions.store().len(),
    ensures
        res@ == effect_groundings(transitions.store(), ins@),
{
    let ghost store = transitions.store();
    let mut pending: Vec<TransitionGroundingId> = Vec::new();
    let mut k: usize = 0;
    while k < ins.len()
        invariant
            k <= ins@.len(),
            store == transitions.store(),
            forall|k: int| 0 <= k < ins@.len() ==> (#[trigger] ins@[k]).0 < store.len(),
            forall|g: TransitionGroundingId| #[trigger] pending@.contains(g)
                <==> exists|j: int| 0 <= j < k && #[trigger] ins@[j].1 == g && into_effect(store, ins@[j]),
        decreases ins@.len() - k,
    {
        let x = ins[k];
        let ghost p0 = pending@;
        let is_eff = match transitions.get(x.0) {
            Transition::Eff(_) => true,
            _ => false,
        };
        if is_eff {
            pending.push(x.1);
        }
        proof {
            assert forall|g: TransitionGroundingId| #[trigger] pending@.contains(g)
                <==> exists|j: int| 0 <= j < k + 1 && #[trigger] ins@[j].1 == g && into_effect(store, ins@[j]) by {
                if is_eff {
                    vstd::seq_lib::lemma_seq_contains_after_push(p0, x.1, g);
                }
                if exists|j: int| 0 <= j < k + 1 && #[trigger] ins@[j].1 == g && into_effect(store, ins@[j]) {
                    let j = choose|j: int| 0 <= j < k + 1 && #[trigger] ins@[j].1 == g && into_effect(store, ins@[j]);
                    if j < k {
                        assert(exists|j2: int| 0 <= j2 < k && #[trigger] ins@[j2].1 == g && into_effect(store, ins@[j2]));
                    }
                }
            }
        }
        k = k + 1;
    }
    let mut merged: Vec<TransitionGroundingId> = Vec::new();
    merge_dedup_into(&mut pending, &mut merged);
    proof {
        let c = effect_groundings(store, ins@);
        assert(strictly_sorted(merged@) && forall|g: TransitionGroundingId| #[trigger] merged@.contains(g)
            <==> exists|j: int| 0 <= j < ins@.len() && #[trigger] ins@[j].1 == g && into_effect(store, ins@[j]));
        assert(strictly_sorted(c) && forall|g: TransitionGroundingId| #[trigger] c.contains(g)
            <==> exists|j: int| 0 <= j < ins@.len() && #[trigger] ins@[j].1 == g && into_effect(store, ins@[j]));
        lemma_strictly_sorted_unique(c, merged@);
    }
    merged
}

fn push_state_var_inflow_rows(problem: &mut LpRelaxProblem, transitions: &Transitions, sg: &SupportsGroundingsInfo)
    requires
        forall|k: int| 0 <= k < sg.in_entries().len() ==> (#[trigger] sg.in_entries()[k]).0 < transitions.store().len(),
    ensures
        final(problem).rows_view() == old(problem).rows_view() + run_rows(
            effect_groundings(transitions.store(), sg.in_entries()),
            |g: TransitionGroundingId| g.state_var_grounding_id,
            |r: Seq<TransitionGroundingId>| state_var_inflow_row(transitions.store(), sg.in_entries(), r),
        ),
{
    let ins = sg.iter_in_all();
    let s = effect_groundings_exec(transitions, ins);
    let ghost store = transitions.store();
    let ghost key = |g: TransitionGroundingId| g.state_var_grounding_id;
    let ghost f = |r: Seq<TransitionGroundingId>| state_var_inflow_row(store, ins@, r);
    let ghost r0 = problem.rows_view();
    let ghost mut added: Seq<RowView> = Seq::empty();
    proof {
        lemma_run_rows_whole(s@, key, f);
    }
    let mut p: usize = 0;
    while p < s.len()
        invariant
            p <= s@.len(),
            store == transitions.store(),
            ins@ == sg.in_entries(),
            forall|k: int| 0 <= k < ins@.len() ==> (#[trigger] ins@[k]).0 < store.len(),
            key == (|g: TransitionGroundingId| g.state_var_grounding_id),
            f == (|r: Seq<TransitionGroundingId>| state_var_inflow_row(store, ins@, r)),
            problem.rows_view() == r0 + added,
            run_rows(s@, key, f) == added + run_rows(s@.subrange(p as int, s@.len() as int), key, f),
        decreases s@.len() - p,
    {
        let sv = s[p].state_var_grounding_id;
        let mut terms: Vec<Term> = Vec::new();
        assert(terms@ =~= state_var_inflow_terms(store, ins@, s@.subrange(p as int, p as int)));
        let mut q: usize = p;
        while q < s.len() && s[q].state_var_grounding_id == sv
            invariant
                p <= q <= s@.len(),
                store == transitions.store(),
                forall|k: int| 0 <= k < ins@.len() ==> (#[trigger] ins@[k]).0 < store.len(),
                key == (|g: TransitionGroundingId| g.state_var_grounding_id),
                sv == s@[p as int].state_var_grounding_id,
                forall|j: int| p <= j < q ==> key(#[trigger] s@[j]) == sv,
                terms@ == state_var_inflow_terms(store, ins@, s@.subrange(p as int, q as int)),
            decreases s@.len() - q,
        {
            push_grounding_inflow_terms(transitions, ins, s[q], &mut terms);
            proof {
                assert(s@.subrange(p as int, q + 1).drop_last() =~= s@.subrange(p as int, q as int));
                assert(s@.subrange(p as int, q + 1).last() == s@[q as int]);
            }
            q = q + 1;
        }
        let ghost tv = terms@;
        let nonempty = terms.len() > 0;
        if nonempty {
            problem.push_row(RowExpr::new_leq_1(terms));
        }
        proof {
            assert(q > p);
            lemma_run_rows_step(s@, key, f, p as int, q as int);
            let chunk: Seq<RowView> = if tv.len() > 0 { seq![(RowExprType::Leq, tv.len(), tv, 1 as IntCst)] } else { seq![] };
            assert(opt_seq(f(s@.subrange(p as int, q as int))) == chunk);
            added = added + chunk;
            assert(problem.rows_view() =~= r0 + added);
        }
        p = q;
    }
}

} // verus!
