//! The lifted rows of the LP relaxation of timelines: presence of transitions and their
//! sources, supports that need a present supporter, trivial support cycles, and the flows of
//! supports into and out of each transition.
use vstd::prelude::*;
use crate::timelines::groundings::{IntCst, Source, SourceGroundingId, TaskId, TransitionGroundingId, TransitionId, IntTerm};
use crate::timelines::supports::{SupportsSorted, sorted_keyed};
use crate::timelines::transitions::{SupportPair, Supports, Transition, Transitions};

verus! {

/// A column of the LP problem.
#[derive(Debug, Clone, Copy, PartialEq, Eq)]
pub enum ColTag {
    PresenceSource(Source, Option<SourceGroundingId>),
    PresenceTransition(TransitionId, Option<TransitionGroundingId>),
    Support(TransitionId, TransitionId, Option<(TransitionGroundingId, TransitionGroundingId)>),
    TermGround(IntTerm, IntCst),
}

impl ColTag {
    /// Whether the column stands for a variable of the main model (no grounding).
    pub fn is_lifted(&self) -> (res: bool)
        ensures
            res == match *self {
                ColTag::PresenceSource(_, g) => g is None,
                ColTag::PresenceTransition(_, g) => g is None,
                ColTag::Support(_, _, g) => g is None,
                ColTag::TermGround(_, _) => true,
            },
    {
        match self {
            ColTag::PresenceSource(_, g) => g.is_none(),
            ColTag::PresenceTransition(_, g) => g.is_none(),
            ColTag::Support(_, _, g) => g.is_none(),
            ColTag::TermGround(_, _) => true,
        }
    }
}

#[derive(Debug, Clone, Copy, PartialEq, Eq, Structural)]
pub enum RowExprType {
    Eq,
    Leq,
    Geq,
}

/// A term of a row: a coefficient and a column.
pub type Term = (IntCst, ColTag);

/// A row `lhs cmp rhs + cst`: its comparison, the index of the first term of the right-hand
/// side, the terms and the constant.
pub type RowView = (RowExprType, nat, Seq<Term>, IntCst);

/// A row `lhs cmp rhs + cst`, where `terms` holds the left-hand side then the right-hand side.
pub struct RowExpr {
    pub tpe: RowExprType,
    separator: usize,
    terms: Vec<Term>,
    cst: IntCst,
}

impl View for RowExpr {
    type V = RowView;

    closed spec fn view(&self) -> RowView {
        (self.tpe, self.separator as nat, self.terms@, self.cst)
    }
}

impl RowExpr {
    pub fn new(tpe: RowExprType, terms: Vec<Term>, separator: usize, cst: IntCst) -> (res: RowExpr)
        ensures
            res@ == (tpe, separator as nat, terms@, cst),
    {
        RowExpr { tpe, separator, terms, cst }
    }

    /// `terms[0] = terms[1..]`.
    pub fn new_eq_single_lhs(terms: Vec<Term>) -> (res: RowExpr)
        ensures
            res@ == (RowExprType::Eq, 1nat, terms@, 0 as IntCst),
    {
        RowExpr { tpe: RowExprType::Eq, separator: 1, terms, cst: 0 }
    }

    /// `terms[0] <= terms[1..]`.
    pub fn new_leq_single_lhs(terms: Vec<Term>) -> (res: RowExpr)
        ensures
            res@ == (RowExprType::Leq, 1nat, terms@, 0 as IntCst),
    {
        RowExpr { tpe: RowExprType::Leq, separator: 1, terms, cst: 0 }
    }

    /// `terms[0] >= terms[1..]`.
    pub fn new_geq_single_lhs(terms: Vec<Term>) -> (res: RowExpr)
        ensures
            res@ == (RowExprType::Geq, 1nat, terms@, 0 as IntCst),
    {
        RowExpr { tpe: RowExprType::Geq, separator: 1, terms, cst: 0 }
    }

    /// `terms <= 1`.
    pub fn new_leq_1(terms: Vec<Term>) -> (res: RowExpr)
        ensures
            res@ == (RowExprType::Leq, terms@.len(), terms@, 1 as IntCst),
    {
        let separator = terms.len();
        RowExpr { tpe: RowExprType::Leq, separator, terms, cst: 1 }
    }

    /// The terms of the left-hand side.
    pub fn lhs(&self) -> (res: &[Term])
        ensures
            res@ == if self@.1 <= self@.2.len() { self@.2.subrange(0, self@.1 as int) } else { Seq::empty() },
    {
        if self.separator <= self.terms.len() {
            vstd::slice::slice_subrange(self.terms.as_slice(), 0, self.separator)
        } else {
            let e: &[Term] = &[];
            assert(e@ =~= Seq::<Term>::empty());
            e
        }
    }

    /// The terms of the right-hand side.
    pub fn rhs(&self) -> (res: &[Term])
        ensures
            res@ == if self@.1 <= self@.2.len() { self@.2.subrange(self@.1 as int, self@.2.len() as int) } else { Seq::empty() },
    {
        if self.separator <= self.terms.len() {
            vstd::slice::slice_subrange(self.terms.as_slice(), self.separator, self.terms.len())
        } else {
            let e: &[Term] = &[];
            assert(e@ =~= Seq::<Term>::empty());
            e
        }
    }

    pub fn cst(&self) -> (res: IntCst)
        ensures
            res == self@.3,
    {
        self.cst
    }
}

/// The rows of an LP problem.
pub struct LpRelaxProblem {
    rows: Vec<RowExpr>,
}

impl LpRelaxProblem {
    /// The rows, in the order they were pushed.
    pub closed spec fn rows_view(&self) -> Seq<RowView> {
        self.rows@.map_values(|r: RowExpr| r@)
    }

    /// No row.
    pub fn default() -> (res: LpRelaxProblem)
        ensures
            res.rows_view().len() == 0,
    {
        let res = LpRelaxProblem { rows: Vec::new() };
        assert(res.rows_view() =~= Seq::<RowView>::empty());
        res
    }

    pub fn push_row(&mut self, row: RowExpr)
        ensures
            final(self).rows_view() == old(self).rows_view().push(row@),
    {
        let ghost r0 = self.rows_view();
        self.rows.push(row);
        assert(self.rows_view() =~= r0.push(row@));
    }

    pub fn rows(&self) -> (res: &[RowExpr])
        ensures
            res@.map_values(|r: RowExpr| r@) == self.rows_view(),
    {
        self.rows.as_slice()
    }
}

/// The row tying the presence of transition `t` to that of its source `s`: equal when their
/// presences are equivalent (`eq`), else at most.
pub open spec fn presence_row(t: TransitionId, s: Source, eq: bool) -> RowView {
    (
        if eq { RowExprType::Eq } else { RowExprType::Leq },
        1nat,
        seq![(1 as IntCst, ColTag::PresenceTransition(t, None)), (1 as IntCst, ColTag::PresenceSource(s, None))],
        0 as IntCst,
    )
}

/// The presence rows of the transitions `ts` of source `s`.
pub open spec fn source_rows(pe: Seq<bool>, s: Source, ts: Seq<TransitionId>) -> Seq<RowView>
    decreases ts.len(),
{
    if ts.len() == 0 {
        seq![]
    } else {
        source_rows(pe, s, ts.drop_last()).push(presence_row(ts.last(), s, pe[ts.last() as int]))
    }
}

/// The presence rows of the transitions of the tasks of index below `k`.
pub open spec fn task_rows(tr: Transitions, pe: Seq<bool>, k: nat) -> Seq<RowView>
    decreases k,
{
    if k == 0 {
        seq![]
    } else {
        let s = Some(TaskId { id: (k - 1) as usize });
        task_rows(tr, pe, (k - 1) as nat) + source_rows(pe, s, tr.of_source_view(s))
    }
}

/// The empty source is present, and so is each transition as its source is.
pub open spec fn presence_rows(tr: Transitions, pe: Seq<bool>) -> Seq<RowView> {
    seq![(RowExprType::Eq, 1nat, seq![(1 as IntCst, ColTag::PresenceSource(None, None))], 1 as IntCst)]
        + source_rows(pe, None, tr.of_source_view(None)) + task_rows(tr, pe, tr.tasks_listed())
}

/// A support into a condition transition needs its supporter present, when conditions do
/// not support (their outflow rows do not cover this).
pub open spec fn support_presence_rows(store: Seq<Transition>, with_conditions: bool, sup: Seq<SupportPair>) -> Seq<RowView>
    decreases sup.len(),
{
    if sup.len() == 0 {
        seq![]
    } else {
        let p = sup.last();
        let r = support_presence_rows(store, with_conditions, sup.drop_last());
        if !with_conditions && store[p.0.1 as int] is Cond {
            r.push((
                RowExprType::Leq,
                1nat,
                seq![(1 as IntCst, ColTag::Support(p.0.0, p.0.1, None)), (1 as IntCst, ColTag::PresenceTransition(p.0.0, None))],
                0 as IntCst,
            ))
        } else {
            r
        }
    }
}

/// Two transitions do not support each other: one row per support of the first `n` whose
/// reverse comes among them.
pub open spec fn cycle_rows(pairs: Seq<(TransitionId, TransitionId)>, n: int) -> Seq<RowView>
    decreases n,
{
    if n <= 0 || n > pairs.len() {
        seq![]
    } else {
        let p = pairs[n - 1];
        let r = cycle_rows(pairs, n - 1);
        if pairs.subrange(0, n).contains((p.1, p.0)) {
            r.push((
                RowExprType::Leq,
                2nat,
                seq![(1 as IntCst, ColTag::Support(p.0, p.1, None)), (1 as IntCst, ColTag::Support(p.1, p.0, None))],
                1 as IntCst,
            ))
        } else {
            r
        }
    }
}

/// The number of leading pairs whose first transition is `k`.
pub open spec fn run_len(s: Seq<(TransitionId, TransitionId)>, k: TransitionId) -> nat
    decreases s.len(),
{
    if s.len() > 0 && s[0].0 == k {
        1 + run_len(s.drop_first(), k)
    } else {
        0
    }
}

proof fn lemma_run_len(s: Seq<(TransitionId, TransitionId)>, k: TransitionId, m: int)
    requires
        0 <= m <= s.len(),
        forall|j: int| 0 <= j < m ==> (#[trigger] s[j]).0 == k,
        m == s.len() || s[m].0 != k,
    ensures
        run_len(s, k) == m,
    decreases m,
{
    if m > 0 {
        assert(s[0].0 == k);
        let t = s.drop_first();
        assert forall|j: int| 0 <= j < m - 1 implies (#[trigger] t[j]).0 == k by {
            assert(t[j] == s[j + 1]);
        }
        if m < s.len() {
            assert(t[m - 1] == s[m]);
        }
        lemma_run_len(t, k, m - 1);
    }
}

/// A run is no longer than the sequence, and has one pair at least when the first pair starts it.
pub proof fn lemma_run_len_bounds(s: Seq<(TransitionId, TransitionId)>, k: TransitionId)
    ensures
        run_len(s, k) <= s.len(),
        s.len() > 0 && s[0].0 == k ==> run_len(s, k) >= 1,
    decreases s.len(),
{
    if s.len() > 0 && s[0].0 == k {
        lemma_run_len_bounds(s.drop_first(), k);
    }
}

/// The row of the supports into transition `i` (the run `run` of (supported, supporting)
/// pairs): its presence equals their sum, or is at least it for an effect transition when
/// no closed-world default was recovered.
pub open spec fn inflow_row(store: Seq<Transition>, cw_empty: bool, i: TransitionId, run: Seq<(TransitionId, TransitionId)>) -> RowView {
    (
        if cw_empty && store[i as int] is Eff { RowExprType::Geq } else { RowExprType::Eq },
        1nat,
        seq![(1 as IntCst, ColTag::PresenceTransition(i, None))] + run.map_values(
            |x: (TransitionId, TransitionId)| (1 as IntCst, ColTag::Support(x.1, i, None)),
        ),
        0 as IntCst,
    )
}

/// One inflow row per run of equal supported transitions in `s`.
pub open spec fn inflow_rows(store: Seq<Transition>, cw_empty: bool, s: Seq<(TransitionId, TransitionId)>) -> Seq<RowView>
    decreases s.len(),
{
    if s.len() == 0 {
        seq![]
    } else {
        let i = s[0].0;
        let m = run_len(s, i);
        proof {
            lemma_run_len_bounds(s, i);
        }
        seq![inflow_row(store, cw_empty, i, s.take(m as int))] + inflow_rows(store, cw_empty, s.skip(m as int))
    }
}

/// The supports of a run out of a transition that count in its outflow: all, when
/// conditions support, else those into transitions that are not pure conditions.
pub open spec fn outflow_kept(store: Seq<Transition>, with_conditions: bool, run: Seq<(TransitionId, TransitionId)>) -> Seq<(TransitionId, TransitionId)>
    decreases run.len(),
{
    if run.len() == 0 {
        seq![]
    } else if with_conditions || !(store[run.last().1 as int] is Cond) {
        outflow_kept(store, with_conditions, run.drop_last()).push(run.last())
    } else {
        outflow_kept(store, with_conditions, run.drop_last())
    }
}

/// The outflow terms of transition `o`: its presence, then its kept supports.
pub open spec fn outflow_terms(store: Seq<Transition>, with_conditions: bool, o: TransitionId, run: Seq<(TransitionId, TransitionId)>) -> Seq<Term> {
    seq![(1 as IntCst, ColTag::PresenceTransition(o, None))] + outflow_kept(store, with_conditions, run).map_values(
        |x: (TransitionId, TransitionId)| (1 as IntCst, ColTag::Support(o, x.1, None)),
    )
}

/// One outflow row per run of equal supporting transitions in `s` that keeps a support: the
/// presence is at most the sum of the kept supports.
pub open spec fn outflow_rows(store: Seq<Transition>, with_conditions: bool, s: Seq<(TransitionId, TransitionId)>) -> Seq<RowView>
    decreases s.len(),
{
    if s.len() == 0 {
        seq![]
    } else {
        let o = s[0].0;
        let m = run_len(s, o);
        proof {
            lemma_run_len_bounds(s, o);
        }
        let terms = outflow_terms(store, with_conditions, o, s.take(m as int));
        (if terms.len() >= 2 { seq![(RowExprType::Geq, 1nat, terms, 0 as IntCst)] } else { seq![] })
            + outflow_rows(store, with_conditions, s.skip(m as int))
    }
}

fn two_terms(a: ColTag, b: ColTag) -> (res: Vec<Term>)
    ensures
        res@ == seq![(1 as IntCst, a), (1 as IntCst, b)],
{
    let mut v: Vec<Term> = Vec::new();
    v.push((1, a));
    v.push((1, b));
    assert(v@ =~= seq![(1 as IntCst, a), (1 as IntCst, b)]);
    v
}

fn push_source_rows(problem: &mut LpRelaxProblem, pe: &[bool], s: Source, ts: &[TransitionId])
    requires
        forall|k: int| 0 <= k < ts@.len() ==> #[trigger] ts@[k] < pe@.len(),
    ensures
        final(problem).rows_view() == old(problem).rows_view() + source_rows(pe@, s, ts@),
{
    let ghost r0 = problem.rows_view();
    let mut k: usize = 0;
    while k < ts.len()
        invariant
            k <= ts@.len(),
            forall|k: int| 0 <= k < ts@.len() ==> #[trigger] ts@[k] < pe@.len(),
            problem.rows_view() == r0 + source_rows(pe@, s, ts@.subrange(0, k as int)),
        decreases ts@.len() - k,
    {
        let t = ts[k];
        proof {
            assert(ts@.subrange(0, k + 1).drop_last() =~= ts@.subrange(0, k as int));
            assert(ts@.subrange(0, k + 1).last() == t);
        }
        let terms = two_terms(ColTag::PresenceTransition(t, None), ColTag::PresenceSource(s, None));
        let row = if pe[t] {
            RowExpr::new_eq_single_lhs(terms)
        } else {
            RowExpr::new_leq_single_lhs(terms)
        };
        problem.push_row(row);
        assert(problem.rows_view() =~= r0 + source_rows(pe@, s, ts@.subrange(0, k + 1)));
        k = k + 1;
    }
    assert(ts@.subrange(0, k as int) =~= ts@);
}

fn push_presence_rows(problem: &mut LpRelaxProblem, transitions: &Transitions, pe: &[bool])
    requires
        transitions.wf(),
        pe@.len() == transitions.store().len(),
    ensures
        final(problem).rows_view() == old(problem).rows_view() + presence_rows(*transitions, pe@),
{
    let ghost r0 = problem.rows_view();
    let mut first: Vec<Term> = Vec::new();
    first.push((1, ColTag::PresenceSource(None, None)));
    problem.push_row(RowExpr::new(RowExprType::Eq, first, 1, 1));
    let none_ts = transitions.of_source(None);
    proof {
        assert forall|k: int| 0 <= k < none_ts@.len() implies #[trigger] none_ts@[k] < pe@.len() by {
            assert(transitions.of_source_view(None).contains(none_ts@[k]));
        }
    }
    push_source_rows(problem, pe, None, none_ts);
    let ghost r1 = problem.rows_view();
    let n = transitions.tasks_listed_len();
    let mut k: usize = 0;
    while k < n
        invariant
            k <= n,
            n == transitions.tasks_listed(),
            transitions.wf(),
            pe@.len() == transitions.store().len(),
            problem.rows_view() == r1 + task_rows(*transitions, pe@, k as nat),
        decreases n - k,
    {
        let s = Some(TaskId { id: k });
        let ts = transitions.of_source(s);
        proof {
            assert forall|j: int| 0 <= j < ts@.len() implies #[trigger] ts@[j] < pe@.len() by {
                assert(transitions.of_source_view(s).contains(ts@[j]));
            }
        }
        push_source_rows(problem, pe, s, ts);
        assert(problem.rows_view() =~= r1 + task_rows(*transitions, pe@, (k + 1) as nat));
        k = k + 1;
    }
    assert(problem.rows_view() =~= r0 + presence_rows(*transitions, pe@));
}

fn push_support_presence_rows(problem: &mut LpRelaxProblem, transitions: &Transitions, supports: &Supports)
    requires
        forall|k: int| 0 <= k < supports.unsorted().len() ==> (#[trigger] supports.unsorted()[k]).0.1 < transitions.store().len(),
    ensures
        final(problem).rows_view() == old(problem).rows_view() + support_presence_rows(
            transitions.store(),
            supports.with_conditions(),
            supports.unsorted(),
        ),
{
    let ghost r0 = problem.rows_view();
    let sup = supports.unsorted_out();
    let with_conditions = supports.collects_condition_supports();
    let mut k: usize = 0;
    while k < sup.len()
        invariant
            k <= sup@.len(),
            sup@ == supports.unsorted(),
            with_conditions == supports.with_conditions(),
            forall|k: int| 0 <= k < supports.unsorted().len() ==> (#[trigger] supports.unsorted()[k]).0.1 < transitions.store().len(),
            problem.rows_view() == r0 + support_presence_rows(transitions.store(), with_conditions, sup@.subrange(0, k as int)),
        decreases sup@.len() - k,
    {
        let p = sup[k];
        proof {
            assert(sup@.subrange(0, k + 1).drop_last() =~= sup@.subrange(0, k as int));
            assert(sup@.subrange(0, k + 1).last() == p);
            assert(supports.unsorted()[k as int] == p);
        }
        let is_cond = match transitions.get(p.0.1) {
            Transition::Cond(_) => true,
            _ => false,
        };
        if !with_conditions && is_cond {
            let terms = two_terms(ColTag::Support(p.0.0, p.0.1, None), ColTag::PresenceTransition(p.0.0, None));
            problem.push_row(RowExpr::new_leq_single_lhs(terms));
        }
        assert(problem.rows_view() =~= r0 + support_presence_rows(transitions.store(), with_conditions, sup@.subrange(0, k + 1)));
        k = k + 1;
    }
    assert(sup@.subrange(0, k as int) =~= sup@);
}

fn push_cycle_rows(problem: &mut LpRelaxProblem, supports_sorted: &SupportsSorted)
    ensures
        final(problem).rows_view() == old(problem).rows_view() + cycle_rows(
            supports_sorted.sorted_out@.map_values(|p: SupportPair| p.0),
            supports_sorted.sorted_out@.len() as int,
        ),
{
    let ghost r0 = problem.rows_view();
    let ghost pairs = supports_sorted.sorted_out@.map_values(|p: SupportPair| p.0);
    let mut seen: Vec<(TransitionId, TransitionId)> = Vec::new();
    let mut k: usize = 0;
    while k < supports_sorted.sorted_out.len()
        invariant
            k <= supports_sorted.sorted_out@.len(),
            pairs == supports_sorted.sorted_out@.map_values(|p: SupportPair| p.0),
            seen@ == pairs.subrange(0, k as int),
            problem.rows_view() == r0 + cycle_rows(pairs, k as int),
        decreases supports_sorted.sorted_out@.len() - k,
    {
        let (o, i) = supports_sorted.sorted_out[k].0;
        seen.push((o, i));
        assert(seen@ =~= pairs.subrange(0, k + 1));
        let mut found = false;
        let mut j: usize = 0;
        while j < seen.len()
            invariant
                j <= seen@.len(),
                found == exists|w: int| 0 <= w < j && #[trigger] seen@[w] == (i, o),
            decreases seen@.len() - j,
        {
            if seen[j].0 == i && seen[j].1 == o {
                found = true;
            }
            j = j + 1;
        }
        proof {
            assert(pairs[k as int] == (o, i));
            if found {
                let w = choose|w: int| 0 <= w < j && #[trigger] seen@[w] == (i, o);
                assert(pairs.subrange(0, k + 1)[w] == (i, o));
            }
            if pairs.subrange(0, k + 1).contains((i, o)) {
                let w = choose|w: int| 0 <= w < k + 1 && #[trigger] pairs.subrange(0, k + 1)[w] == (i, o);
                assert(seen@[w] == (i, o));
            }
        }
        if found {
            let terms = two_terms(ColTag::Support(o, i, None), ColTag::Support(i, o, None));
            problem.push_row(RowExpr::new_leq_1(terms));
        }
        assert(problem.rows_view() =~= r0 + cycle_rows(pairs, k + 1));
        k = k + 1;
    }
}

fn push_inflow_rows(problem: &mut LpRelaxProblem, transitions: &Transitions, s: &Vec<(TransitionId, TransitionId)>, cw_empty: bool)
    requires
        forall|k: int| 0 <= k < s@.len() ==> (#[trigger] s@[k]).0 < transitions.store().len(),
    ensures
        final(problem).rows_view() == old(problem).rows_view() + inflow_rows(transitions.store(), cw_empty, s@),
{
    let ghost r0 = problem.rows_view();
    let ghost store = transitions.store();
    let ghost mut added: Seq<RowView> = Seq::empty();
    let mut p: usize = 0;
    assert(s@.subrange(0, s@.len() as int) =~= s@);
    while p < s.len()
        invariant
            p <= s@.len(),
            store == transitions.store(),
            forall|k: int| 0 <= k < s@.len() ==> (#[trigger] s@[k]).0 < store.len(),
            problem.rows_view() == r0 + added,
            inflow_rows(store, cw_empty, s@) == added + inflow_rows(store, cw_empty, s@.subrange(p as int, s@.len() as int)),
        decreases s@.len() - p,
    {
        let i = s[p].0;
        let mut terms: Vec<Term> = Vec::new();
        terms.push((1, ColTag::PresenceTransition(i, None)));
        let mut q: usize = p;
        while q < s.len() && s[q].0 == i
            invariant
                p <= q <= s@.len(),
                forall|j: int| p <= j < q ==> (#[trigger] s@[j]).0 == i,
                terms@ == seq![(1 as IntCst, ColTag::PresenceTransition(i, None))] + s@.subrange(p as int, q as int).map_values(
                    |x: (TransitionId, TransitionId)| (1 as IntCst, ColTag::Support(x.1, i, None)),
                ),
            decreases s@.len() - q,
        {
            terms.push((1, ColTag::Support(s[q].1, i, None)));
            assert(terms@ =~= seq![(1 as IntCst, ColTag::PresenceTransition(i, None))] + s@.subrange(p as int, q + 1).map_values(
                |x: (TransitionId, TransitionId)| (1 as IntCst, ColTag::Support(x.1, i, None)),
            ));
            q = q + 1;
        }
        assert(q > p);
        let is_eff = match transitions.get(i) {
            Transition::Eff(_) => true,
            _ => false,
        };
        let tpe = if cw_empty && is_eff {
            RowExprType::Geq
        } else {
            RowExprType::Eq
        };
        let ghost row = (tpe, 1nat, terms@, 0 as IntCst);
        problem.push_row(RowExpr::new(tpe, terms, 1, 0));
        proof {
            let t = s@.subrange(p as int, s@.len() as int);
            let m = (q - p) as int;
            assert forall|j: int| 0 <= j < m implies (#[trigger] t[j]).0 == i by {
                assert(t[j] == s@[p + j]);
            }
            if q < s@.len() {
                assert(t[m] == s@[q as int]);
            }
            lemma_run_len(t, i, m);
            assert(t[0].0 == i);
            assert(t.take(m) =~= s@.subrange(p as int, q as int));
            assert(t.skip(m) =~= s@.subrange(q as int, s@.len() as int));
            assert(row == inflow_row(store, cw_empty, i, t.take(m)));
            assert(inflow_rows(store, cw_empty, t) == seq![inflow_row(store, cw_empty, i, t.take(m))] + inflow_rows(store, cw_empty, t.skip(m)));
            added = added.push(row);
            assert(added =~= added.drop_last() + seq![row]);
        }
        p = q;
    }
}

fn push_outflow_rows(
    problem: &mut LpRelaxProblem,
    transitions: &Transitions,
    s: &Vec<(TransitionId, TransitionId)>,
    with_conditions: bool,
)
    requires
        forall|k: int| 0 <= k < s@.len() ==> (#[trigger] s@[k]).1 < transitions.store().len(),
    ensures
        final(problem).rows_view() == old(problem).rows_view() + outflow_rows(transitions.store(), with_conditions, s@),
{
    let ghost r0 = problem.rows_view();
    let ghost store = transitions.store();
    let ghost mut added: Seq<RowView> = Seq::empty();
    let mut p: usize = 0;
    assert(s@.subrange(0, s@.len() as int) =~= s@);
    while p < s.len()
        invariant
            p <= s@.len(),
            store == transitions.store(),
            forall|k: int| 0 <= k < s@.len() ==> (#[trigger] s@[k]).1 < store.len(),
            problem.rows_view() == r0 + added,
            outflow_rows(store, with_conditions, s@) == added + outflow_rows(store, with_conditions, s@.subrange(p as int, s@.len() as int)),
        decreases s@.len() - p,
    {
        let o = s[p].0;
        let mut terms: Vec<Term> = Vec::new();
        terms.push((1, ColTag::PresenceTransition(o, None)));
        let mut q: usize = p;
        while q < s.len() && s[q].0 == o
            invariant
                p <= q <= s@.len(),
                forall|k: int| 0 <= k < s@.len() ==> (#[trigger] s@[k]).1 < store.len(),
                store == transitions.store(),
                forall|j: int| p <= j < q ==> (#[trigger] s@[j]).0 == o,
                terms@ == outflow_terms(store, with_conditions, o, s@.subrange(p as int, q as int)),
            decreases s@.len() - q,
        {
            let i = s[q].1;
            let is_cond = match transitions.get(i) {
                Transition::Cond(_) => true,
                _ => false,
            };
            proof {
                assert(s@.subrange(p as int, q + 1).drop_last() =~= s@.subrange(p as int, q as int));
                assert(s@.subrange(p as int, q + 1).last() == s@[q as int]);
            }
            if with_conditions || !is_cond {
                terms.push((1, ColTag::Support(o, i, None)));
            }
            assert(terms@ =~= outflow_terms(store, with_conditions, o, s@.subrange(p as int, q + 1)));
            q = q + 1;
        }
        assert(q > p);
        let ghost tv = terms@;
        let pushed = terms.len() >= 2;
        if pushed {
            problem.push_row(RowExpr::new_geq_single_lhs(terms));
        }
        proof {
            let t = s@.subrange(p as int, s@.len() as int);
            let m = (q - p) as int;
            assert forall|j: int| 0 <= j < m implies (#[trigger] t[j]).0 == o by {
                assert(t[j] == s@[p + j]);
            }
            if q < s@.len() {
                assert(t[m] == s@[q as int]);
            }
            lemma_run_len(t, o, m);
            assert(t[0].0 == o);
            assert(t.take(m) =~= s@.subrange(p as int, q as int));
            assert(t.skip(m) =~= s@.subrange(q as int, s@.len() as int));
            let chunk: Seq<RowView> = if tv.len() >= 2 { seq![(RowExprType::Geq, 1nat, tv, 0 as IntCst)] } else { seq![] };
            assert(outflow_rows(store, with_conditions, t) == chunk + outflow_rows(store, with_conditions, t.skip(m)));
            added = added + chunk;
            assert(problem.rows_view() =~= r0 + added);
        }
        p = q;
    }
}

/// Pushes the lifted rows of the LP relaxation: the presence rows of the sources and their
/// transitions (`presences_equivalent[t]` tells whether transition `t` and its source have
/// equivalent presences), the rows for supports into conditions, the rows against two
/// transitions supporting each other, then the inflow rows (over `sorted_in`; that of an
/// effect transition is only a lower bound when no default initial effect was recovered) and
/// the outflow rows (over `sorted_out`, which is sorted).
pub fn encode_problem_lifted(
    transitions: &Transitions,
    supports: &Supports,
    supports_sorted: &SupportsSorted,
    presences_equivalent: &[bool],
    problem: &mut LpRelaxProblem,
)
    requires
        transitions.wf(),
        presences_equivalent@.len() == transitions.store().len(),
        forall|k: int| 0 <= k < supports.unsorted().len() ==> (#[trigger] supports.unsorted()[k]).0.1 < transitions.store().len(),
        forall|k: int| 0 <= k < supports_sorted.sorted_in@.len() ==> (#[trigger] supports_sorted.sorted_in@[k]).0 < transitions.store().len(),
        forall|k: int| 0 <= k < supports_sorted.sorted_out@.len() ==> (#[trigger] supports_sorted.sorted_out@[k]).0.1 < transitions.store().len(),
        sorted_keyed(supports_sorted.sorted_out@),
    ensures
        final(problem).rows_view() == old(problem).rows_view() + presence_rows(*transitions, presences_equivalent@)
            + support_presence_rows(transitions.store(), supports.with_conditions(), supports.unsorted())
            + cycle_rows(supports_sorted.sorted_out@.map_values(|p: SupportPair| p.0), supports_sorted.sorted_out@.len() as int)
            + inflow_rows(transitions.store(), transitions.recovered_count() == 0, supports_sorted.sorted_in@)
            + outflow_rows(transitions.store(), supports.with_conditions(), supports_sorted.sorted_out@.map_values(|p: SupportPair| p.0)),
{
    let ghost r0 = problem.rows_view();
    push_presence_rows(problem, transitions, presences_equivalent);
    push_support_presence_rows(problem, transitions, supports);
    push_cycle_rows(problem, supports_sorted);
    let cw_empty = transitions.are_recovered_closed_world_default_effects_empty();
    push_inflow_rows(problem, transitions, &supports_sorted.sorted_in, cw_empty);
    let mut pairs: Vec<(TransitionId, TransitionId)> = Vec::new();
    let ghost all = supports_sorted.sorted_out@.map_values(|p: SupportPair| p.0);
    let mut k: usize = 0;
    while k < supports_sorted.sorted_out.len()
        invariant
            k <= supports_sorted.sorted_out@.len(),
            all == supports_sorted.sorted_out@.map_values(|p: SupportPair| p.0),
            pairs@ == all.subrange(0, k as int),
        decreases supports_sorted.sorted_out@.len() - k,
    {
        pairs.push(supports_sorted.sorted_out[k].0);
        assert(pairs@ =~= all.subrange(0, k + 1));
        k = k + 1;
    }
    assert(pairs@ =~= all);
    proof {
        assert forall|j: int| 0 <= j < pairs@.len() implies (#[trigger] pairs@[j]).1 < transitions.store().len() by {
            assert(pairs@[j] == supports_sorted.sorted_out@[j].0);
        }
    }
    push_outflow_rows(problem, transitions, &pairs, supports.collects_condition_supports());
}

} // verus!
