//! The additive heuristic h^add over a classical state.
use vstd::prelude::*;
use crate::classical::state::{
    Lit, Op, Operators, State, OperatorV, entails, entails_all, applicable, ops_wf, lits_in, apply, run_plan, achieves,
    lemma_apply_len, lemma_run_plan_len,
};

verus! {

/// A cost; `INF` stands for an unreachable literal or operator.
pub type Cost = u64;

pub const INF: Cost = 0xffff_ffff_ffff_ffffu64;

/// Index of a literal in a table of literal costs.
pub open spec fn lit_index(l: Lit) -> int {
    2 * l.var.id + if l.val { 1int } else { 0int }
}

fn lit_index_exec(l: Lit) -> (res: usize)
    requires
        2 * l.var.id + 1 <= usize::MAX,
    ensures
        res == lit_index(l),
{
    2 * l.var.id + if l.val { 1 } else { 0 }
}

/// Sum of a sequence of costs.
pub open spec fn sum(s: Seq<Cost>) -> int
    decreases s.len(),
{
    if s.len() == 0 {
        0
    } else {
        sum(s.drop_last()) + s.last()
    }
}

proof fn lemma_sum_update(s: Seq<Cost>, i: int, v: Cost)
    requires
        0 <= i < s.len(),
    ensures
        sum(s.update(i, v)) == sum(s) - s[i] + v,
    decreases s.len(),
{
    if i < s.len() - 1 {
        lemma_sum_update(s.drop_last(), i, v);
        assert(s.update(i, v).drop_last() =~= s.drop_last().update(i, v));
    } else {
        assert(s.update(i, v).drop_last() =~= s.drop_last());
    }
}

proof fn lemma_sum_nonneg(s: Seq<Cost>)
    ensures
        sum(s) >= 0,
    decreases s.len(),
{
    if s.len() > 0 {
        lemma_sum_nonneg(s.drop_last());
    }
}

/// `x` capped at `INF - 1`, the largest finite cost.
pub open spec fn capped(x: int) -> Cost {
    if x >= INF - 1 {
        (INF - 1) as Cost
    } else {
        x as Cost
    }
}

/// Sum of the costs, in the table `costs`, of the literals `lits`.
spec fn table_sum(costs: Seq<Cost>, lits: Seq<Lit>) -> int
    decreases lits.len(),
{
    if lits.len() == 0 {
        0
    } else {
        table_sum(costs, lits.drop_last()) + costs[lit_index(lits.last())]
    }
}

/// The cost, in the table `costs`, of an operator with preconditions `pre`: `INF` if one of them
/// costs `INF`, else 1 plus the sum of their costs, capped at `INF - 1`.
spec fn table_cost(costs: Seq<Cost>, pre: Seq<Lit>) -> Cost {
    if exists|i: int| 0 <= i < pre.len() && costs[lit_index(#[trigger] pre[i])] == INF {
        INF
    } else {
        capped(1 + table_sum(costs, pre))
    }
}

proof fn lemma_table_sum_nonneg(costs: Seq<Cost>, lits: Seq<Lit>)
    ensures
        table_sum(costs, lits) >= 0,
    decreases lits.len(),
{
    if lits.len() > 0 {
        lemma_table_sum_nonneg(costs, lits.drop_last());
    }
}

/// Adding a precondition `l` to `lits`: `INF` if either costs `INF`, else the capped sum.
proof fn lemma_table_cost_push(costs: Seq<Cost>, lits: Seq<Lit>, l: Lit)
    ensures
        table_cost(costs, lits.push(l)) == if costs[lit_index(l)] == INF || table_cost(costs, lits) == INF {
            INF
        } else {
            capped(table_cost(costs, lits) + costs[lit_index(l)])
        },
{
    let p = lits.push(l);
    assert(p.drop_last() =~= lits);
    assert(p.last() == l);
    lemma_table_sum_nonneg(costs, lits);
    assert(p[lits.len() as int] == l);
    if exists|i: int| 0 <= i < lits.len() && costs[lit_index(#[trigger] lits[i])] == INF {
        let i = choose|i: int| 0 <= i < lits.len() && costs[lit_index(#[trigger] lits[i])] == INF;
        assert(p[i] == lits[i]);
    }
    if exists|i: int| 0 <= i < p.len() && costs[lit_index(#[trigger] p[i])] == INF {
        let i = choose|i: int| 0 <= i < p.len() && costs[lit_index(#[trigger] p[i])] == INF;
        if i < lits.len() {
            assert(p[i] == lits[i]);
        }
    }
}

/// Lower costs give lower sums and lower operator costs.
proof fn lemma_table_monotone(lo: Seq<Cost>, hi: Seq<Cost>, pre: Seq<Lit>, n: nat)
    requires
        lo.len() == 2 * n,
        hi.len() == 2 * n,
        lits_in(pre, n),
        forall|i: int| 0 <= i < 2 * n ==> #[trigger] lo[i] <= hi[i],
    ensures
        table_sum(lo, pre) <= table_sum(hi, pre),
        table_cost(lo, pre) <= table_cost(hi, pre),
    decreases pre.len(),
{
    if pre.len() > 0 {
        assert(lits_in(pre.drop_last(), n)) by {
            assert forall|i: int| 0 <= i < pre.drop_last().len() implies (#[trigger] pre.drop_last()[i]).var.id < n by {
                assert(pre.drop_last()[i] == pre[i]);
            }
        }
        lemma_table_monotone(lo, hi, pre.drop_last(), n);
        assert(pre.last() == pre[pre.len() - 1]);
        assert(lo[lit_index(pre.last())] <= hi[lit_index(pre.last())]);
    }
    lemma_table_sum_nonneg(lo, pre);
    if !exists|i: int| 0 <= i < pre.len() && hi[lit_index(#[trigger] pre[i])] == INF {
        assert forall|i: int| 0 <= i < pre.len() implies lo[lit_index(#[trigger] pre[i])] != INF by {
            assert(pre[i].var.id < n);
            assert(lo[lit_index(pre[i])] <= hi[lit_index(pre[i])]);
        }
    }
}

/// The operator `o` costs `oc` in the table `costs`, and none of its effects costs more.
spec fn exact_at(o: OperatorV, costs: Seq<Cost>, oc: Cost) -> bool {
    &&& oc == table_cost(costs, o.pre)
    &&& forall|j: int| 0 <= j < o.eff.len() ==> costs[lit_index(#[trigger] o.eff[j])] <= oc
}

/// Some operator of `ops` has the effect `l` and costs at most `bound` in the table `table`.
spec fn achieved_within(ops: Seq<OperatorV>, table: Seq<Cost>, l: Lit, bound: Cost) -> bool {
    exists|k: int, j: int| 0 <= k < ops.len() && 0 <= j < ops[k].eff.len() && #[trigger] ops[k].eff[j] == l && table_cost(table, ops[k].pre) <= bound
}

/// Each literal that does not hold in `s` and has a finite cost in `costs` is the effect of an
/// operator costing at most as much in `table`.
spec fn lits_witnessed(ops: Seq<OperatorV>, s: Seq<bool>, costs: Seq<Cost>, table: Seq<Cost>, n: nat) -> bool {
    forall|l: Lit| l.var.id < n && !entails(s, l) && costs[lit_index(l)] < INF ==> #[trigger] achieved_within(ops, table, l, costs[lit_index(l)])
}

/// The witnesses stay witnesses when the table of costs decreases.
proof fn lemma_witnessed_mono(ops: Seq<OperatorV>, s: Seq<bool>, costs: Seq<Cost>, hi: Seq<Cost>, lo: Seq<Cost>, n: nat)
    requires
        lits_witnessed(ops, s, costs, hi, n),
        ops_wf(ops, n),
        lo.len() == 2 * n,
        hi.len() == 2 * n,
        forall|i: int| 0 <= i < 2 * n ==> #[trigger] lo[i] <= hi[i],
    ensures
        lits_witnessed(ops, s, costs, lo, n),
{
    assert forall|l: Lit| l.var.id < n && !entails(s, l) && costs[lit_index(l)] < INF implies #[trigger] achieved_within(ops, lo, l, costs[lit_index(l)]) by {
        assert(achieved_within(ops, hi, l, costs[lit_index(l)]));
        let (k, j) = choose|k: int, j: int| 0 <= k < ops.len() && 0 <= j < ops[k].eff.len() && #[trigger] ops[k].eff[j] == l && table_cost(hi, ops[k].pre) <= costs[lit_index(l)];
        lemma_table_monotone(lo, hi, ops[k].pre, n);
        assert(ops[k].eff[j] == l);
    }
}

/// Costs computed by h^add in a state: of each operator and of each literal, and the
/// operators applicable in the state.
pub struct HAddResult {
    op_costs: Vec<Cost>,
    lit_costs: Vec<Cost>,
    applicable: Vec<Op>,
}

impl HAddResult {
    pub closed spec fn spec_lit_cost(&self, l: Lit) -> Cost {
        self.lit_costs@[lit_index(l)]
    }

    pub closed spec fn spec_op_cost(&self, op: Op) -> Cost {
        self.op_costs@[op.id as int]
    }

    pub closed spec fn spec_applicable(&self) -> Seq<Op> {
        self.applicable@
    }

    /// Number of variables and of operators the costs are about.
    pub closed spec fn dims(&self) -> (nat, nat) {
        ((self.lit_costs@.len() / 2) as nat, self.op_costs@.len())
    }

    /// Cost of the operator `op`.
    pub fn operator_cost(&self, op: Op) -> (res: Cost)
        requires
            op.id < self.dims().1,
        ensures
            res == self.spec_op_cost(op),
    {
        self.op_costs[op.id]
    }

    /// Cost of the literal `l`.
    pub fn lit_cost(&self, l: Lit) -> (res: Cost)
        requires
            l.var.id < self.dims().0,
        ensures
            res == self.spec_lit_cost(l),
    {
        let len = self.lit_costs.len();
        assert(2 * l.var.id + 1 < len);
        self.lit_costs[lit_index_exec(l)]
    }

    /// The operators applicable in the state, in increasing order.
    pub fn applicable_operators(&self) -> (res: &[Op])
        ensures
            res@ == self.spec_applicable(),
    {
        self.applicable.as_slice()
    }

    /// Cost of a conjunction of literals: `INF` if one of them costs `INF`, else the sum of their
    /// costs, capped at `INF - 1`.
    pub fn conjunction_cost(&self, lits: &[Lit]) -> (res: Cost)
        requires
            lits_in(lits@, self.dims().0),
        ensures
            res == 0 <==> forall|i: int| 0 <= i < lits@.len() ==> self.spec_lit_cost(#[trigger] lits@[i]) == 0,
            res == INF <==> exists|i: int| 0 <= i < lits@.len() && self.spec_lit_cost(#[trigger] lits@[i]) == INF,
            res == if exists|i: int| 0 <= i < lits@.len() && self.spec_lit_cost(#[trigger] lits@[i]) == INF {
                INF
            } else {
                capped(lits_cost_sum(*self, lits@))
            },
    {
        let mut total: Cost = 0;
        let mut i: usize = 0;
        let mut saw_inf = false;
        while i < lits.len()
            invariant
                i <= lits.len(),
                lits_in(lits@, self.dims().0),
                total == 0 <==> forall|j: int| 0 <= j < i ==> self.spec_lit_cost(#[trigger] lits@[j]) == 0,
                saw_inf <==> exists|j: int| 0 <= j < i && self.spec_lit_cost(#[trigger] lits@[j]) == INF,
                saw_inf ==> total == INF,
                !saw_inf ==> total < INF,
                !saw_inf ==> total == capped(lits_cost_sum(*self, lits@.take(i as int))),
            decreases lits.len() - i,
        {
            proof {
                let t1 = lits@.take(i + 1);
                assert(t1.drop_last() =~= lits@.take(i as int));
                assert(t1.last() == lits@[i as int]);
                lemma_cost_sum_table(*self, lits@.take(i as int));
                lemma_table_sum_nonneg(self.lit_costs@, lits@.take(i as int));
            }
            let c = self.lit_cost(lits[i]);
            if c == INF {
                saw_inf = true;
                total = INF;
            } else if !saw_inf {
                if total > INF - 1 - c {
                    total = INF - 1;
                } else {
                    total = total + c;
                }
            }
            i = i + 1;
        }
        assert(lits@.take(i as int) =~= lits@);
        total
    }
}

/// Sum of the costs in `res` of the literals `lits`.
pub open spec fn lits_cost_sum(res: HAddResult, lits: Seq<Lit>) -> int
    decreases lits.len(),
{
    if lits.len() == 0 {
        0
    } else {
        lits_cost_sum(res, lits.drop_last()) + res.spec_lit_cost(lits.last())
    }
}

/// The h^add cost, given the literal costs of `res`, of an operator with preconditions `pre`:
/// `INF` if one of them costs `INF`, else 1 plus the sum of their costs, capped at `INF - 1`.
pub open spec fn additive_cost(res: HAddResult, pre: Seq<Lit>) -> Cost {
    if exists|i: int| 0 <= i < pre.len() && res.spec_lit_cost(#[trigger] pre[i]) == INF {
        INF
    } else {
        capped(1 + lits_cost_sum(res, pre))
    }
}

proof fn lemma_cost_sum_table(res: HAddResult, lits: Seq<Lit>)
    ensures
        lits_cost_sum(res, lits) == table_sum(res.lit_costs@, lits),
        additive_cost(res, lits) == table_cost(res.lit_costs@, lits),
    decreases lits.len(),
{
    if lits.len() > 0 {
        lemma_cost_sum_table(res, lits.drop_last());
    }
}

/// `relaxed_step` over a table of literal costs.
pub open spec fn costs_step(o: OperatorV, costs: Seq<Cost>) -> bool {
    (forall|i: int| 0 <= i < o.pre.len() ==> costs[lit_index(#[trigger] o.pre[i])] < INF) ==> (forall|j: int|
        0 <= j < o.eff.len() ==> costs[lit_index(#[trigger] o.eff[j])] < INF)
}

/// In the relaxation, the operator `o` is enabled when none of its preconditions costs `INF`,
/// and then none of its effects costs `INF`.
pub open spec fn relaxed_step(o: OperatorV, res: HAddResult) -> bool {
    (forall|i: int| 0 <= i < o.pre.len() ==> res.spec_lit_cost(#[trigger] o.pre[i]) < INF) ==> (forall|j: int|
        0 <= j < o.eff.len() ==> res.spec_lit_cost(#[trigger] o.eff[j]) < INF)
}

/// What h^add guarantees: a literal costs 0 exactly when it holds, each operator costs
/// `additive_cost` of its preconditions, each literal that does not hold costs the least cost of
/// an operator achieving it (`INF` if none does), the literals of finite cost are closed under
/// the operators (ignoring deletions), operators are applicable as listed, and costs are given
/// for every variable and operator.
pub open spec fn hadd_ensures(s: Seq<bool>, ops: Seq<OperatorV>, res: HAddResult) -> bool {
    &&& res.dims() == (s.len(), ops.len())
    &&& forall|k: int| 0 <= k < ops.len() ==> #[trigger] res.spec_op_cost(Op { id: k as usize }) == additive_cost(res, ops[k].pre)
    &&& forall|k: int, j: int| 0 <= k < ops.len() && 0 <= j < ops[k].eff.len() ==> res.spec_lit_cost(#[trigger] ops[k].eff[j])
        <= res.spec_op_cost(Op { id: k as usize })
    &&& forall|l: Lit| l.var.id < s.len() && !entails(s, l) && #[trigger] res.spec_lit_cost(l) < INF ==> exists|k: int, j: int|
        0 <= k < ops.len() && 0 <= j < ops[k].eff.len() && #[trigger] ops[k].eff[j] == l && res.spec_lit_cost(l) == res.spec_op_cost(
            Op { id: k as usize },
        )
    &&& forall|l: Lit| l.var.id < s.len() ==> (#[trigger] res.spec_lit_cost(l) == 0 <==> entails(s, l))
    &&& forall|k: int| 0 <= k < ops.len() ==> #[trigger] relaxed_step(ops[k], res)
    &&& forall|i: int| 0 <= i < res.spec_applicable().len() ==> applicable(ops, s, #[trigger] res.spec_applicable()[i])
    &&& forall|i: int, j: int| 0 <= i < j < res.spec_applicable().len() ==> res.spec_applicable()[i].id < res.spec_applicable()[j].id
    &&& forall|k: int| 0 <= k < ops.len() && #[trigger] applicable(ops, s, Op { id: k as usize }) ==> res.spec_applicable().contains(Op { id: k as usize })
}

/// After applying `effs`, a literal holds if it held before or is one of the effects.
proof fn lemma_apply_entails(s: Seq<bool>, effs: Seq<Lit>, l: Lit)
    requires
        lits_in(effs, s.len()),
        entails(apply(s, effs), l),
    ensures
        entails(s, l) || exists|j: int| 0 <= j < effs.len() && effs[j] == l,
    decreases effs.len(),
{
    if effs.len() > 0 {
        let e = effs.last();
        lemma_apply_len(s, effs.drop_last());
        if e.var.id == l.var.id {
            assert(effs[effs.len() - 1] == l);
        } else {
            lemma_apply_entails(s, effs.drop_last(), l);
            if !entails(s, l) {
                let j = choose|j: int| 0 <= j < effs.drop_last().len() && effs.drop_last()[j] == l;
                assert(effs[j] == l);
            }
        }
    }
}

/// Every literal that holds after a plan applicable from `s` has a finite h^add cost in `s`.
pub proof fn lemma_reachable_finite(s: Seq<bool>, ops: Seq<OperatorV>, res: HAddResult, p: Seq<Op>, l: Lit)
    requires
        ops_wf(ops, s.len()),
        hadd_ensures(s, ops, res),
        l.var.id < s.len(),
        run_plan(ops, s, p) matches Some(t) && entails(t, l),
    ensures
        res.spec_lit_cost(l) < INF,
    decreases p.len(),
{
    if p.len() == 0 {
        assert(res.spec_lit_cost(l) == 0);
    } else {
        let t0 = run_plan(ops, s, p.drop_last())->Some_0;
        let op = p.last();
        let o = ops[op.id as int];
        lemma_run_plan_len(ops, s, p.drop_last());
        lemma_apply_entails(t0, o.eff, l);
        if entails(t0, l) {
            lemma_reachable_finite(s, ops, res, p.drop_last(), l);
        } else {
            let j = choose|j: int| 0 <= j < o.eff.len() && o.eff[j] == l;
            assert forall|i: int| 0 <= i < o.pre.len() implies res.spec_lit_cost(#[trigger] o.pre[i]) < INF by {
                lemma_reachable_finite(s, ops, res, p.drop_last(), o.pre[i]);
            }
            assert(relaxed_step(ops[op.id as int], res));
            assert(res.spec_lit_cost(o.eff[j]) < INF);
        }
    }
}

/// When a goal costs `INF`, no plan achieves the goals from `s`.
pub proof fn lemma_inf_unreachable(s: Seq<bool>, ops: Seq<OperatorV>, res: HAddResult, goals: Seq<Lit>, i: int)
    requires
        ops_wf(ops, s.len()),
        hadd_ensures(s, ops, res),
        lits_in(goals, s.len()),
        0 <= i < goals.len(),
        res.spec_lit_cost(goals[i]) == INF,
    ensures
        forall|p: Seq<Op>| !#[trigger] achieves(ops, s, p, goals),
{
    assert forall|p: Seq<Op>| !#[trigger] achieves(ops, s, p, goals) by {
        if achieves(ops, s, p, goals) {
            let t = run_plan(ops, s, p)->Some_0;
            assert(entails(t, goals[i]));
            lemma_reachable_finite(s, ops, res, p, goals[i]);
        }
    }
}

/// h^add is additive: an operator whose preconditions all have a finite cost costs 1 plus the
/// sum of their costs (capped at `INF - 1`), and one with a precondition of cost `INF` costs `INF`.
pub proof fn law_hadd_operator_cost(s: Seq<bool>, ops: Seq<OperatorV>, res: HAddResult, k: int)
    requires
        hadd_ensures(s, ops, res),
        0 <= k < ops.len(),
    ensures
        (forall|i: int| 0 <= i < ops[k].pre.len() ==> res.spec_lit_cost(#[trigger] ops[k].pre[i]) < INF) ==> res.spec_op_cost(
            Op { id: k as usize },
        ) == capped(1 + lits_cost_sum(res, ops[k].pre)),
        (forall|i: int| 0 <= i < ops[k].pre.len() ==> res.spec_lit_cost(#[trigger] ops[k].pre[i]) < INF) && 1 + lits_cost_sum(
            res,
            ops[k].pre,
        ) < INF - 1 ==> res.spec_op_cost(Op { id: k as usize }) == 1 + lits_cost_sum(res, ops[k].pre),
        (exists|i: int| 0 <= i < ops[k].pre.len() && res.spec_lit_cost(#[trigger] ops[k].pre[i]) == INF) ==> res.spec_op_cost(
            Op { id: k as usize },
        ) == INF,
{
    assert(res.spec_op_cost(Op { id: k as usize }) == additive_cost(res, ops[k].pre));
    if forall|i: int| 0 <= i < ops[k].pre.len() ==> res.spec_lit_cost(#[trigger] ops[k].pre[i]) < INF {
        assert(!exists|i: int| 0 <= i < ops[k].pre.len() && res.spec_lit_cost(#[trigger] ops[k].pre[i]) == INF);
        lemma_cost_sum_table(res, ops[k].pre);
        lemma_table_sum_nonneg(res.lit_costs@, ops[k].pre);
    }
}

/// In h^add, a literal that does not hold costs the least cost of an operator achieving it: no
/// more than any of them, exactly as much as one of them when its cost is finite, and `INF` when
/// no operator achieves it.
pub proof fn law_hadd_literal_cost(s: Seq<bool>, ops: Seq<OperatorV>, res: HAddResult, l: Lit)
    requires
        hadd_ensures(s, ops, res),
        l.var.id < s.len(),
        !entails(s, l),
    ensures
        forall|k: int, j: int| 0 <= k < ops.len() && 0 <= j < ops[k].eff.len() && #[trigger] ops[k].eff[j] == l ==> res.spec_lit_cost(l)
            <= res.spec_op_cost(Op { id: k as usize }),
        res.spec_lit_cost(l) < INF ==> exists|k: int, j: int| 0 <= k < ops.len() && 0 <= j < ops[k].eff.len() && #[trigger] ops[k].eff[j]
            == l && res.spec_lit_cost(l) == res.spec_op_cost(Op { id: k as usize }),
        (forall|k: int, j: int| 0 <= k < ops.len() && 0 <= j < ops[k].eff.len() ==> #[trigger] ops[k].eff[j] != l) ==> res.spec_lit_cost(l)
            == INF,
{
    assert(res.spec_lit_cost(l) < INF ==> exists|k: int, j: int| 0 <= k < ops.len() && 0 <= j < ops[k].eff.len() && #[trigger] ops[k].eff[j]
        == l && res.spec_lit_cost(l) == res.spec_op_cost(Op { id: k as usize }));
}

/// The exact costs of the fixpoint, in the terms of `hadd_ensures`.
proof fn lemma_hadd_exact(s: Seq<bool>, ops: Seq<OperatorV>, res: HAddResult)
    requires
        res.lit_costs@.len() == 2 * s.len(),
        res.op_costs@.len() == ops.len(),
        ops.len() <= usize::MAX,
        ops_wf(ops, s.len()),
        forall|k: int| 0 <= k < ops.len() ==> #[trigger] exact_at(ops[k], res.lit_costs@, res.op_costs@[k]),
        lits_witnessed(ops, s, res.lit_costs@, res.lit_costs@, s.len()),
    ensures
        forall|k: int| 0 <= k < ops.len() ==> #[trigger] res.spec_op_cost(Op { id: k as usize }) == additive_cost(res, ops[k].pre),
        forall|k: int, j: int| 0 <= k < ops.len() && 0 <= j < ops[k].eff.len() ==> res.spec_lit_cost(#[trigger] ops[k].eff[j])
            <= res.spec_op_cost(Op { id: k as usize }),
        forall|l: Lit| l.var.id < s.len() && !entails(s, l) && #[trigger] res.spec_lit_cost(l) < INF ==> exists|k: int, j: int|
            0 <= k < ops.len() && 0 <= j < ops[k].eff.len() && #[trigger] ops[k].eff[j] == l && res.spec_lit_cost(l)
                == res.spec_op_cost(Op { id: k as usize }),
{
    assert forall|k: int| 0 <= k < ops.len() implies #[trigger] res.spec_op_cost(Op { id: k as usize }) == additive_cost(res, ops[k].pre) by {
        assert(exact_at(ops[k], res.lit_costs@, res.op_costs@[k]));
        assert((k as usize) as int == k);
        lemma_cost_sum_table(res, ops[k].pre);
    }
    assert forall|k: int, j: int| 0 <= k < ops.len() && 0 <= j < ops[k].eff.len() implies res.spec_lit_cost(#[trigger] ops[k].eff[j])
        <= res.spec_op_cost(Op { id: k as usize }) by {
        assert(exact_at(ops[k], res.lit_costs@, res.op_costs@[k]));
        assert((k as usize) as int == k);
    }
    assert forall|l: Lit| l.var.id < s.len() && !entails(s, l) && #[trigger] res.spec_lit_cost(l) < INF implies exists|k: int, j: int|
        0 <= k < ops.len() && 0 <= j < ops[k].eff.len() && #[trigger] ops[k].eff[j] == l && res.spec_lit_cost(l) == res.spec_op_cost(
            Op { id: k as usize },
        ) by {
        let c = res.lit_costs@;
        assert(achieved_within(ops, c, l, c[lit_index(l)]));
        let (k, j) = choose|k: int, j: int| 0 <= k < ops.len() && 0 <= j < ops[k].eff.len() && #[trigger] ops[k].eff[j] == l && table_cost(c, ops[k].pre) <= c[lit_index(l)];
        assert(exact_at(ops[k], c, res.op_costs@[k]));
        assert(c[lit_index(ops[k].eff[j])] <= res.op_costs@[k]);
        assert(ops[k].eff[j] == l);
        assert((k as usize) as int == k);
    }
}

/// Computes h^add: each literal that holds costs 0, each operator costs 1 plus the cost of its
/// preconditions, and each other literal costs the least cost of an operator achieving it
/// (`INF` if none can), computed as a fixpoint.
pub fn hadd(state: &State, ops: &Operators) -> (res: HAddResult)
    requires
        ops_wf(ops@, state@.len()),
        2 * state@.len() + 2 <= usize::MAX,
    ensures
        hadd_ensures(state@, ops@, res),
{
    let n = state.size();
    let ghost s = state@;
    // literal costs
    let mut lit_costs: Vec<Cost> = Vec::new();
    let mut v: usize = 0;
    while v < n
        invariant
            v <= n == s.len(),
            s == state@,
            2 * n + 2 <= usize::MAX,
            lit_costs@.len() == 2 * v,
            forall|l: Lit| l.var.id < v ==> (lit_costs@[lit_index(l)] == 0 <==> #[trigger] entails(s, l)),
            forall|l: Lit| l.var.id < v && !#[trigger] entails(s, l) ==> lit_costs@[lit_index(l)] == INF,
        decreases n - v,
    {
        let val = state.is_set(crate::classical::state::SVId { id: v });
        let ghost old_costs = lit_costs@;
        if val {
            lit_costs.push(INF);
            lit_costs.push(0);
        } else {
            lit_costs.push(0);
            lit_costs.push(INF);
        }
        proof {
            assert(lit_costs@[2 * v as int] == (if val { INF } else { 0 }));
            assert(lit_costs@[2 * v + 1] == (if val { 0 } else { INF }));
            assert forall|l: Lit| l.var.id < v + 1 implies (lit_costs@[lit_index(l)] == 0 <==> #[trigger] entails(s, l)) by {
                if l.var.id < v {
                    assert(lit_index(l) < 2 * v);
                    assert(lit_costs@[lit_index(l)] == old_costs[lit_index(l)]);
                } else {
                    assert(l.var.id == v);
                    assert(s[v as int] == val);
                }
            }
            assert forall|l: Lit| l.var.id < v + 1 && !#[trigger] entails(s, l) implies lit_costs@[lit_index(l)] == INF by {
                if l.var.id < v {
                    assert(lit_index(l) < 2 * v);
                    assert(lit_costs@[lit_index(l)] == old_costs[lit_index(l)]);
                } else {
                    assert(l.var.id == v);
                    assert(s[v as int] == val);
                }
            }
        }
        v = v + 1;
    }
    let mut op_costs: Vec<Cost> = Vec::new();
    let mut k: usize = 0;
    while k < ops.size()
        invariant
            k <= ops@.len(),
            op_costs@.len() == k,
            forall|k2: int| 0 <= k2 < k ==> op_costs@[k2] == INF,
        decreases ops@.len() - k,
    {
        op_costs.push(INF);
        k = k + 1;
    }
    proof {
        assert forall|l: Lit| l.var.id < n && !entails(s, l) && lit_costs@[lit_index(l)] < INF implies #[trigger] achieved_within(
            ops@,
            lit_costs@,
            l,
            lit_costs@[lit_index(l)],
        ) by {
            assert(!entails(s, l) ==> lit_costs@[lit_index(l)] == INF);
        }
    }
    // fixpoint
    let mut changed = true;
    while changed
        invariant
            n == s.len(),
            2 * n + 2 <= usize::MAX,
            ops_wf(ops@, s.len()),
            lit_costs@.len() == 2 * n,
            op_costs@.len() == ops@.len(),
            forall|l: Lit| l.var.id < n ==> (lit_costs@[lit_index(l)] == 0 <==> #[trigger] entails(s, l)),
            !changed ==> forall|k: int| 0 <= k < ops@.len() ==> #[trigger] costs_step(ops@[k], lit_costs@),
            forall|k2: int| 0 <= k2 < ops@.len() ==> #[trigger] op_costs@[k2] >= table_cost(lit_costs@, ops@[k2].pre),
            lits_witnessed(ops@, s, lit_costs@, lit_costs@, n as nat),
            !changed ==> forall|k2: int| 0 <= k2 < ops@.len() ==> #[trigger] exact_at(ops@[k2], lit_costs@, op_costs@[k2]),
        decreases sum(lit_costs@) + if changed { 1int } else { 0int },
    {
        let ghost start_sum = sum(lit_costs@);
        let ghost start = lit_costs@;
        changed = false;
        let mut k: usize = 0;
        while k < ops.size()
            invariant
                k <= ops@.len(),
                n == s.len(),
                2 * n + 2 <= usize::MAX,
                ops_wf(ops@, s.len()),
                lit_costs@.len() == 2 * n,
                op_costs@.len() == ops@.len(),
                forall|l: Lit| l.var.id < n ==> (lit_costs@[lit_index(l)] == 0 <==> #[trigger] entails(s, l)),
                changed ==> sum(lit_costs@) < start_sum,
                !changed ==> sum(lit_costs@) == start_sum,
                !changed ==> lit_costs@ == start,
                !changed ==> forall|k2: int| 0 <= k2 < k ==> #[trigger] costs_step(ops@[k2], lit_costs@),
                forall|k2: int| 0 <= k2 < ops@.len() ==> #[trigger] op_costs@[k2] >= table_cost(lit_costs@, ops@[k2].pre),
                lits_witnessed(ops@, s, lit_costs@, lit_costs@, n as nat),
                !changed ==> forall|k2: int| 0 <= k2 < k ==> #[trigger] exact_at(ops@[k2], lit_costs@, op_costs@[k2]),
            decreases ops@.len() - k,
        {
            let op = Op { id: k };
            let pre = ops.preconditions(op);
            // cost of the operator: 1 + cost of its preconditions, INF when one of them costs INF
            let mut c: Cost = 1;
            let mut j: usize = 0;
            while j < pre.len()
                invariant
                    j <= pre.len(),
                    2 * n + 2 <= usize::MAX,
                    lits_in(pre@, n as nat),
                    lit_costs@.len() == 2 * n,
                    c >= 1,
                    c < INF <==> forall|j2: int| 0 <= j2 < j ==> lit_costs@[lit_index(#[trigger] pre@[j2])] < INF,
                    c == table_cost(lit_costs@, pre@.take(j as int)),
                decreases pre.len() - j,
            {
                proof {
                    assert(pre@.take(j + 1) =~= pre@.take(j as int).push(pre@[j as int]));
                    lemma_table_cost_push(lit_costs@, pre@.take(j as int), pre@[j as int]);
                }
                let lc = lit_costs[lit_index_exec(pre[j])];
                if lc == INF || c == INF {
                    c = INF;
                } else if c > INF - 1 - lc {
                    c = INF - 1;
                } else {
                    c = c + lc;
                }
                j = j + 1;
            }
            proof {
                assert(pre@.take(j as int) =~= pre@);
                assert(ops@[k as int].pre == pre@);
            }
            if c < op_costs[k] {
                op_costs.set(k, c);
            }
            assert(op_costs@[k as int] == c);
            let effs = ops.effects(op);
            let ghost pre_costs = lit_costs@;
            let ghost changed_before = changed;
            proof {
                assert(ops@[k as int].pre == pre@);
                assert(ops@[k as int].eff == effs@);
            }
            let mut j: usize = 0;
            while j < effs.len()
                invariant
                    j <= effs.len(),
                    n == s.len(),
                    2 * n + 2 <= usize::MAX,
                    lits_in(effs@, n as nat),
                    lit_costs@.len() == 2 * n,
                    c >= 1,
                    forall|l: Lit| l.var.id < n ==> (lit_costs@[lit_index(l)] == 0 <==> #[trigger] entails(s, l)),
                    changed ==> sum(lit_costs@) < start_sum,
                    !changed ==> sum(lit_costs@) == start_sum,
                    !changed ==> lit_costs@ == start,
                    !changed ==> forall|j2: int| 0 <= j2 < j ==> lit_costs@[lit_index(#[trigger] effs@[j2])] <= c,
                    !changed ==> forall|k2: int| 0 <= k2 < k ==> #[trigger] costs_step(ops@[k2], lit_costs@),
                    changed_before ==> changed,
                    k < ops@.len(),
                    effs@ == ops@[k as int].eff,
                    pre_costs.len() == 2 * n,
                    forall|i: int| 0 <= i < 2 * n ==> #[trigger] lit_costs@[i] <= pre_costs[i],
                    c == table_cost(pre_costs, ops@[k as int].pre),
                    lits_witnessed(ops@, s, lit_costs@, pre_costs, n as nat),
                decreases effs.len() - j,
            {
                let li = lit_index_exec(effs[j]);
                if c < lit_costs[li] {
                    proof {
                        let nc = lit_costs@.update(li as int, c);
                        let e = effs@[j as int];
                        assert(ops@[k as int].eff[j as int] == e);
                        assert forall|l: Lit| l.var.id < n && !entails(s, l) && nc[lit_index(l)] < INF implies #[trigger] achieved_within(
                            ops@,
                            pre_costs,
                            l,
                            nc[lit_index(l)],
                        ) by {
                            if lit_index(l) == li {
                                assert(l.var.id == e.var.id && l.val == e.val);
                                assert(l == e);
                                assert(ops@[k as int].eff[j as int] == l);
                            } else {
                                assert(achieved_within(ops@, pre_costs, l, lit_costs@[lit_index(l)]));
                            }
                        }
                        lemma_sum_update(lit_costs@, li as int, c);
                        assert forall|l: Lit| l.var.id < n implies (lit_costs@.update(li as int, c)[lit_index(l)] == 0 <==> #[trigger] entails(s, l)) by {
                            if lit_index(l) == li {
                                assert(lit_costs@[li as int] > c >= 1);
                            }
                        }
                    }
                    lit_costs.set(li, c);
                    changed = true;
                }
                j = j + 1;
            }
            proof {
                assert forall|k2: int| 0 <= k2 < ops@.len() implies #[trigger] op_costs@[k2] >= table_cost(lit_costs@, ops@[k2].pre) by {
                    lemma_table_monotone(lit_costs@, pre_costs, ops@[k2].pre, n as nat);
                }
                lemma_witnessed_mono(ops@, s, lit_costs@, pre_costs, lit_costs@, n as nat);
                if !changed {
                    assert(exact_at(ops@[k as int], lit_costs@, op_costs@[k as int]));
                    assert(costs_step(ops@[k as int], lit_costs@)) by {
                        assert(pre_costs == lit_costs@);
                        if forall|i: int| 0 <= i < pre@.len() ==> lit_costs@[lit_index(#[trigger] pre@[i])] < INF {
                            assert(c < INF);
                        }
                    }
                }
            }
            k = k + 1;
        }
        proof {
            lemma_sum_nonneg(lit_costs@);
        }
    }
    // applicable operators
    let mut applicable_ops: Vec<Op> = Vec::new();
    let mut k: usize = 0;
    while k < ops.size()
        invariant
            k <= ops@.len(),
            s == state@,
            forall|k2: int| 0 <= k2 < ops@.len() ==> #[trigger] costs_step(ops@[k2], lit_costs@),
            forall|i: int| 0 <= i < applicable_ops@.len() ==> (#[trigger] applicable_ops@[i]).id < k && applicable(ops@, s, applicable_ops@[i]),
            forall|i: int, j: int| 0 <= i < j < applicable_ops@.len() ==> applicable_ops@[i].id < applicable_ops@[j].id,
            forall|m: int| 0 <= m < k && #[trigger] applicable(ops@, s, Op { id: m as usize }) ==> applicable_ops@.contains(Op { id: m as usize }),
        decreases ops@.len() - k,
    {
        let op = Op { id: k };
        if state.entails_all(ops.preconditions(op)) {
            let ghost old_a = applicable_ops@;
            applicable_ops.push(op);
            proof {
                assert forall|m: int| 0 <= m < k + 1 && #[trigger] applicable(ops@, s, Op { id: m as usize }) implies applicable_ops@.contains(Op { id: m as usize }) by {
                    if m < k {
                        let idx = choose|idx: int| 0 <= idx < old_a.len() && old_a[idx] == Op { id: m as usize };
                        assert(applicable_ops@[idx] == Op { id: m as usize });
                    } else {
                        assert(applicable_ops@[applicable_ops@.len() - 1] == Op { id: m as usize });
                    }
                }
            }
        }
        k = k + 1;
    }
    let res = HAddResult { op_costs, lit_costs, applicable: applicable_ops };
    proof {
        assert((2 * n) / 2 == n) by (nonlinear_arith);
        assert forall|k: int| 0 <= k < ops@.len() implies #[trigger] relaxed_step(ops@[k], res) by {
            assert(costs_step(ops@[k], res.lit_costs@));
        }
        lemma_hadd_exact(s, ops@, res);
    }
    res
}

} // verus!
