//! Threats between the steps of a plan: a step whose effects change a variable that another
//! step needs, where the order of the two steps matters.
use vstd::prelude::*;
use crate::classical::state::{Op, Lit, SVId, OperatorV, Operators, State, ops_wf};
use crate::classical::GroundProblem;
use crate::explain::state2::{Resume, Obligationtemp, newot};
use crate::explain::matrix::IntMatrix;
use crate::explain::explain::{plan_in, has_step, supports_of, supports_at, history, lemma_history, vars_used, lemma_vars_used, count_var, threatens};

verus! {

/// What an ordering constraint holds: the first operator and its step, the second operator and
/// its step.
pub type OtV = (Op, i32, Op, i32);

/// What the ordering constraint `o` holds.
pub open spec fn ot_view(o: Obligationtemp) -> OtV {
    (o.spec_operateur().0, o.spec_etape().0, o.spec_operateur().1, o.spec_etape().1)
}

/// What each ordering constraint of `s` holds.
pub open spec fn ots_view(s: Seq<Obligationtemp>) -> Seq<OtV> {
    s.map_values(|o: Obligationtemp| ot_view(o))
}

/// The concatenation of `f(e)` over the literals `e` of `effs`, in order, that are about the
/// variable of `pre`.
pub open spec fn over_effs<T>(effs: Seq<Lit>, pre: Lit, f: spec_fn(Lit) -> Seq<T>) -> Seq<T>
    decreases effs.len(),
{
    if effs.len() == 0 {
        seq![]
    } else {
        over_effs(effs.drop_last(), pre, f) + (if effs.last().var == pre.var {
            f(effs.last())
        } else {
            seq![]
        })
    }
}

/// The concatenation of `f(e)` over the pairs of a literal of `pres` and a literal `e` of `effs`
/// about the same variable, in the order of `pres`, then of `effs`.
pub open spec fn over_pairs<T>(pres: Seq<Lit>, effs: Seq<Lit>, f: spec_fn(Lit) -> Seq<T>) -> Seq<T>
    decreases pres.len(),
{
    if pres.len() == 0 {
        seq![]
    } else {
        over_pairs(pres.drop_last(), effs, f) + over_effs(effs, pres.last(), f)
    }
}

/// The concatenation of `g(0)`, ..., `g(k - 1)`.
pub open spec fn over_steps<T>(k: int, g: spec_fn(int) -> Seq<T>) -> Seq<T>
    decreases k,
{
    if k <= 0 {
        seq![]
    } else {
        over_steps(k - 1, g) + g(k - 1)
    }
}

/// Whether one of the records `rs` is about the operator `op`.
pub open spec fn supported_by_op(rs: Seq<Resume>, op: Op) -> bool {
    exists|t: int| 0 <= t < rs.len() && #[trigger] rs[t].spec_op() == Some(op)
}

/// Whether one of the records `rs` is about the operator `op`.
fn has_op(rs: &Vec<Resume>, op: Op) -> (b: bool)
    ensures
        b == supported_by_op(rs@, op),
{
    let mut t: usize = 0;
    while t < rs.len()
        invariant
            t <= rs@.len(),
            forall|u: int| 0 <= u < t ==> #[trigger] rs@[u].spec_op() != Some(op),
        decreases rs@.len() - t,
    {
        match rs[t].op() {
            Some(o) => {
                if o == op {
                    return true;
                }
            },
            None => {},
        }
        t = t + 1;
    }
    false
}

/// The records of the supports of every step of the plan, in order.
fn all_supports(plan: &Vec<Op>, initial_state: &State, ops: &Operators) -> (res: Vec<Vec<Resume>>)
    requires
        plan@.len() <= i32::MAX,
        ops_wf(ops@, initial_state@.len()),
        plan_in(ops@, plan@),
    ensures
        res@.len() == plan@.len(),
        forall|i: int| 0 <= i < plan@.len() ==> (#[trigger] res@[i])@ == supports_of(ops@, initial_state@, plan@, i),
{
    let mut cause: Vec<Vec<Resume>> = Vec::new();
    let mut k: usize = 0;
    while k < plan.len()
        invariant
            k <= plan@.len() <= i32::MAX,
            ops_wf(ops@, initial_state@.len()),
            plan_in(ops@, plan@),
            cause@.len() == k,
            forall|i: int| 0 <= i < k ==> (#[trigger] cause@[i])@ == supports_of(ops@, initial_state@, plan@, i),
        decreases plan@.len() - k,
    {
        let e = supports_at(k, plan, initial_state, ops);
        cause.push(e);
        k = k + 1;
    }
    cause
}

/// Each support of step `i` is the default record, or that of an earlier step with its operator.
pub proof fn lemma_supports_of(ops: Seq<OperatorV>, s: Seq<bool>, plan: Seq<Op>, i: int)
    requires
        ops_wf(ops, s.len()),
        plan_in(ops, plan),
        0 <= i < plan.len(),
        plan.len() <= i32::MAX,
    ensures
        forall|t: int| 0 <= t < supports_of(ops, s, plan, i).len() ==> {
            let r = #[trigger] supports_of(ops, s, plan, i)[t];
            ||| r == Resume::spec_new(None, -1i32)
            ||| (0 <= r.spec_numero() < i && r == Resume::spec_new(Some(plan[r.spec_numero() as int]), r.spec_numero()))
        },
{
    lemma_history(ops, s, plan, i as nat);
    assert(plan[i].id < ops.len());
    lemma_vars_used(ops[plan[i].id as int].pre, s.len());
    let vs = vars_used(ops[plan[i].id as int].pre, s.len());
    assert forall|t: int| 0 <= t < supports_of(ops, s, plan, i).len() implies {
        let r = #[trigger] supports_of(ops, s, plan, i)[t];
        ||| r == Resume::spec_new(None, -1i32)
        ||| (0 <= r.spec_numero() < i && r == Resume::spec_new(Some(plan[r.spec_numero() as int]), r.spec_numero()))
    } by {
        assert(0 <= vs[t] < s.len());
        assert(supports_of(ops, s, plan, i)[t] == history(ops, s, plan, i as nat)[vs[t]]);
    }
}

/// The same constraint for each pair of a literal of `pres` and one of `effs` on the same variable.
pub open spec fn constant_block(x: OtV) -> spec_fn(Lit) -> Seq<OtV> {
    |e: Lit| seq![x]
}

/// Appends to `out` the constraint `(o1, e1, o2, e2)` once per pair of a literal of `pres` and a
/// literal of `effs` on the same variable.
fn push_for_pairs(out: &mut Vec<Obligationtemp>, pres: &[Lit], effs: &[Lit], o1: Op, e1: i32, o2: Op, e2: i32)
    ensures
        ots_view(final(out)@) == ots_view(old(out)@) + over_pairs(pres@, effs@, constant_block((o1, e1, o2, e2))),
{
    let ghost f = constant_block((o1, e1, o2, e2));
    let ghost base = ots_view(out@);
    let mut p: usize = 0;
    while p < pres.len()
        invariant
            p <= pres@.len(),
            f == constant_block((o1, e1, o2, e2)),
            ots_view(out@) == base + over_pairs(pres@.take(p as int), effs@, f),
        decreases pres@.len() - p,
    {
        let ghost mid = ots_view(out@);
        let mut e: usize = 0;
        while e < effs.len()
            invariant
                p < pres@.len(),
                e <= effs@.len(),
                f == constant_block((o1, e1, o2, e2)),
                ots_view(out@) == mid + over_effs(effs@.take(e as int), pres@[p as int], f),
            decreases effs@.len() - e,
        {
            let ghost before = out@;
            if pres[p].var == effs[e].var {
                out.push(newot(o1, e1, o2, e2));
            }
            proof {
                let te = effs@.take(e + 1);
                assert(te.drop_last() =~= effs@.take(e as int));
                assert(te.last() == effs@[e as int]);
                let fx = f(effs@[e as int]);
                assert(fx.len() == 1 && fx[0] == (o1, e1, o2, e2));
                assert(fx =~= seq![(o1, e1, o2, e2)]);
                if pres@[p as int].var == effs@[e as int].var {
                    assert(ots_view(out@) =~= ots_view(before).push((o1, e1, o2, e2)));
                } else {
                    assert(out@ == before);
                }
                assert(ots_view(out@) =~= mid + over_effs(te, pres@[p as int], f));
            }
            e = e + 1;
        }
        proof {
            assert(effs@.take(e as int) =~= effs@);
            assert(pres@.take(p + 1).drop_last() =~= pres@.take(p as int));
            assert(ots_view(out@) =~= base + over_pairs(pres@.take(p + 1), effs@, f));
        }
        p = p + 1;
    }
    proof {
        assert(pres@.take(p as int) =~= pres@);
    }
}

/// The constraints between steps `i` (operator `I`) and `j` (operator `J`) that `menace` finds:
/// when the steps differ and no support of step `i` is about the operator `J`, the constraint
/// `(J, j, I, i)` once per pair of a precondition of `J` and an effect of `I` on the same
/// variable.
pub open spec fn menace_pair(ops: Seq<OperatorV>, s: Seq<bool>, plan: Seq<Op>, i: int, j: int) -> Seq<OtV> {
    if i != j && !supported_by_op(supports_of(ops, s, plan, i), plan[j]) {
        over_pairs(
            ops[plan[j].id as int].pre,
            ops[plan[i].id as int].eff,
            constant_block((plan[j], j as i32, plan[i], i as i32)),
        )
    } else {
        seq![]
    }
}

/// The constraints that `menace` finds with step `i`, in the order of the other step.
pub open spec fn menace_row(ops: Seq<OperatorV>, s: Seq<bool>, plan: Seq<Op>, i: int) -> spec_fn(int) -> Seq<OtV> {
    |j: int| menace_pair(ops, s, plan, i, j)
}

/// The constraints that `menace` finds, step by step.
pub open spec fn menace_rows(ops: Seq<OperatorV>, s: Seq<bool>, plan: Seq<Op>) -> spec_fn(int) -> Seq<OtV> {
    |i: int| over_steps(plan.len() as int, menace_row(ops, s, plan, i))
}

/// The constraints that `menace` finds over the whole plan.
pub open spec fn menace_v(ops: Seq<OperatorV>, s: Seq<bool>, plan: Seq<Op>) -> Seq<OtV> {
    over_steps(plan.len() as int, menace_rows(ops, s, plan))
}

/// The threats of the plan: for each step `i` (operator `I`) and each other step `j` (operator
/// `J`) such that no support of step `i` is about `J`, the constraint `(J, j, I, i)` once per
/// pair of a precondition of `J` and an effect of `I` on the same variable (`menace_v`).
pub fn menace(plan: Vec<Op>, ground: &GroundProblem) -> (res: Vec<Obligationtemp>)
    requires
        plan@.len() <= i32::MAX,
        ops_wf(ground.operators@, ground.initial_state@.len()),
        plan_in(ground.operators@, plan@),
    ensures
        ots_view(res@) == menace_v(ground.operators@, ground.initial_state@, plan@),
{
    let ghost (o, s, p) = (ground.operators@, ground.initial_state@, plan@);
    let ops = &ground.operators;
    let cause = all_supports(&plan, &ground.initial_state, ops);
    let n = plan.len();
    let mut out: Vec<Obligationtemp> = Vec::new();
    let mut i: usize = 0;
    while i < n
        invariant
            n == p.len() <= i32::MAX,
            p == plan@,
            o == ops@,
            plan_in(o, p),
            cause@.len() == n,
            forall|k: int| 0 <= k < n ==> (#[trigger] cause@[k])@ == supports_of(o, s, p, k),
            i <= n,
            ots_view(out@) == over_steps(i as int, menace_rows(o, s, p)),
        decreases n - i,
    {
        let ghost base = ots_view(out@);
        let mut j: usize = 0;
        while j < n
            invariant
                n == p.len() <= i32::MAX,
                p == plan@,
                o == ops@,
                plan_in(o, p),
                cause@.len() == n,
                forall|k: int| 0 <= k < n ==> (#[trigger] cause@[k])@ == supports_of(o, s, p, k),
                i < n,
                j <= n,
                ots_view(out@) == base + over_steps(j as int, menace_row(o, s, p, i as int)),
            decreases n - j,
        {
            let ghost before = ots_view(out@);
            assert(p[i as int].id < o.len() && p[j as int].id < o.len());
            if i != j && !has_op(&cause[i], plan[j]) {
                push_for_pairs(
                    &mut out,
                    ops.preconditions(plan[j]),
                    ops.effects(plan[i]),
                    plan[j],
                    j as i32,
                    plan[i],
                    i as i32,
                );
            }
            proof {
                assert(ots_view(out@) =~= before + menace_pair(o, s, p, i as int, j as int));
            }
            j = j + 1;
        }
        i = i + 1;
    }
    out
}

/// A constraint, with the step whose support it threatens.
pub type ThreatV = (OtV, i32);

/// What each constraint of `s`, with its threatened step, holds.
pub open spec fn threats_view(s: Seq<(Obligationtemp, i32)>) -> Seq<ThreatV> {
    s.map_values(|x: (Obligationtemp, i32)| (ot_view(x.0), x.1))
}

/// The constraints that step `j` (operator `opj`) must come before the supports `sup` of step
/// `i` that change the variable `v`: for each such support (operator `o`, step `k`), in order,
/// the constraint `(opj, j, o, k)` once per effect of `o` on `v`, each with step `i`.
pub open spec fn threat_back(ops: Seq<OperatorV>, sup: Seq<Resume>, v: int, opj: Op, j: i32, i: i32) -> Seq<ThreatV>
    decreases sup.len(),
{
    if sup.len() == 0 {
        seq![]
    } else {
        threat_back(ops, sup.drop_last(), v, opj, j, i) + match sup.last().spec_op() {
            Some(o) => Seq::new(count_var(ops[o.id as int].eff, v), |k: int| ((opj, j, o, sup.last().spec_numero()), i)),
            None => seq![],
        }
    }
}

/// What `menace2` finds for a pair of a precondition of step `i` (operator `opi`, supports
/// `sup`) and an effect `e` of step `j` (operator `opj`) on the same variable: if `j` comes after
/// `i`, the constraint `(opj, j, opi, i)`; otherwise the constraints that `j` must come before the
/// supports of `i` that change that variable.
pub open spec fn menace2_block(ops: Seq<OperatorV>, sup: Seq<Resume>, opi: Op, opj: Op, i: int, j: int) -> spec_fn(Lit) -> Seq<ThreatV> {
    |e: Lit|
        if j > i {
            seq![((opj, j as i32, opi, i as i32), i as i32)]
        } else {
            threat_back(ops, sup, e.var.id as int, opj, j as i32, i as i32)
        }
}

/// The constraints that `menace2` finds between steps `i` and `j`: when the steps differ and no
/// support of step `i` is about the operator of step `j`, `menace2_block` for each pair of a
/// precondition of step `i` and an effect of step `j` on the same variable.
pub open spec fn menace2_pair(ops: Seq<OperatorV>, s: Seq<bool>, plan: Seq<Op>, i: int, j: int) -> Seq<ThreatV> {
    if i != j && !supported_by_op(supports_of(ops, s, plan, i), plan[j]) {
        over_pairs(
            ops[plan[i].id as int].pre,
            ops[plan[j].id as int].eff,
            menace2_block(ops, supports_of(ops, s, plan, i), plan[i], plan[j], i, j),
        )
    } else {
        seq![]
    }
}

/// The constraints that `menace2` finds with step `i`, in the order of the other step.
pub open spec fn menace2_row(ops: Seq<OperatorV>, s: Seq<bool>, plan: Seq<Op>, i: int) -> spec_fn(int) -> Seq<ThreatV> {
    |j: int| menace2_pair(ops, s, plan, i, j)
}

/// The constraints that `menace2` finds, step by step.
pub open spec fn menace2_rows(ops: Seq<OperatorV>, s: Seq<bool>, plan: Seq<Op>) -> spec_fn(int) -> Seq<ThreatV> {
    |i: int| over_steps(plan.len() as int, menace2_row(ops, s, plan, i))
}

/// The constraints that `menace2` finds over the whole plan, each with its threatened step.
pub open spec fn menace2_detail(ops: Seq<OperatorV>, s: Seq<bool>, plan: Seq<Op>) -> Seq<ThreatV> {
    over_steps(plan.len() as int, menace2_rows(ops, s, plan))
}

/// Whether every support in `sup` that has an operator has one of `ops`.
pub open spec fn sup_ops_in(ops: Seq<OperatorV>, sup: Seq<Resume>) -> bool {
    forall|t: int| 0 <= t < sup.len() ==> (#[trigger] sup[t].spec_op() matches Some(o) ==> o.id < ops.len())
}

/// Appends to `out` the constraints `threat_back` gives.
fn push_back_threats(out: &mut Vec<(Obligationtemp, i32)>, sup: &Vec<Resume>, v: SVId, opj: Op, j: i32, i: i32, ops: &Operators)
    requires
        sup_ops_in(ops@, sup@),
    ensures
        threats_view(final(out)@) == threats_view(old(out)@) + threat_back(ops@, sup@, v.id as int, opj, j, i),
{
    let ghost base = threats_view(out@);
    let mut t: usize = 0;
    while t < sup.len()
        invariant
            t <= sup@.len(),
            sup_ops_in(ops@, sup@),
            threats_view(out@) == base + threat_back(ops@, sup@.take(t as int), v.id as int, opj, j, i),
        decreases sup@.len() - t,
    {
        let ghost mid = threats_view(out@);
        let ghost st = sup@.take(t + 1);
        proof {
            assert(st.drop_last() =~= sup@.take(t as int));
            assert(st.last() == sup@[t as int]);
        }
        match sup[t].op() {
            Some(o) => {
                assert(o.id < ops@.len());
                let effs = ops.effects(o);
                let kk = sup[t].numero();
                let ghost x = ((opj, j, o, kk), i);
                let mut e: usize = 0;
                while e < effs.len()
                    invariant
                        e <= effs@.len(),
                        x == ((opj, j, o, kk), i),
                        threats_view(out@) == mid + Seq::new(count_var(effs@.take(e as int), v.id as int), |k: int| x),
                    decreases effs@.len() - e,
                {
                    let ghost before = threats_view(out@);
                    let ghost c = count_var(effs@.take(e as int), v.id as int);
                    if effs[e].var == v {
                        out.push((newot(opj, j, o, kk), i));
                        proof {
                            assert(threats_view(out@) =~= before.push(x));
                        }
                    }
                    proof {
                        let te = effs@.take(e + 1);
                        assert(te.drop_last() =~= effs@.take(e as int));
                        assert(te.last() == effs@[e as int]);
                        if effs@[e as int].var == v {
                            assert(Seq::new(c + 1, |k: int| x) =~= Seq::new(c, |k: int| x).push(x));
                        }
                        assert(threats_view(out@) =~= mid + Seq::new(count_var(te, v.id as int), |k: int| x));
                    }
                    e = e + 1;
                }
                proof {
                    assert(effs@.take(e as int) =~= effs@);
                    assert(threats_view(out@) =~= base + threat_back(ops@, st, v.id as int, opj, j, i));
                }
            },
            None => {
                assert(threats_view(out@) =~= base + threat_back(ops@, st, v.id as int, opj, j, i));
            },
        }
        t = t + 1;
    }
    proof {
        assert(sup@.take(t as int) =~= sup@);
    }
}

/// Appends to `out` what `menace2_block` gives for each pair of a literal of `pres` and a
/// literal of `effs` on the same variable.
fn push_threat_pairs(
    out: &mut Vec<(Obligationtemp, i32)>,
    pres: &[Lit],
    effs: &[Lit],
    sup: &Vec<Resume>,
    opi: Op,
    opj: Op,
    i: usize,
    j: usize,
    ops: &Operators,
)
    requires
        i <= i32::MAX,
        j <= i32::MAX,
        sup_ops_in(ops@, sup@),
    ensures
        threats_view(final(out)@) == threats_view(old(out)@) + over_pairs(pres@, effs@, menace2_block(ops@, sup@, opi, opj, i as int, j as int)),
{
    let ghost f = menace2_block(ops@, sup@, opi, opj, i as int, j as int);
    let ghost base = threats_view(out@);
    let mut p: usize = 0;
    while p < pres.len()
        invariant
            p <= pres@.len(),
            i <= i32::MAX,
            j <= i32::MAX,
            sup_ops_in(ops@, sup@),
            f == menace2_block(ops@, sup@, opi, opj, i as int, j as int),
            threats_view(out@) == base + over_pairs(pres@.take(p as int), effs@, f),
        decreases pres@.len() - p,
    {
        let ghost mid = threats_view(out@);
        let mut e: usize = 0;
        while e < effs.len()
            invariant
                p < pres@.len(),
                e <= effs@.len(),
                i <= i32::MAX,
                j <= i32::MAX,
                sup_ops_in(ops@, sup@),
                f == menace2_block(ops@, sup@, opi, opj, i as int, j as int),
                threats_view(out@) == mid + over_effs(effs@.take(e as int), pres@[p as int], f),
            decreases effs@.len() - e,
        {
            let ghost before = threats_view(out@);
            if pres[p].var == effs[e].var {
                if j > i {
                    out.push((newot(opj, j as i32, opi, i as i32), i as i32));
                    proof {
                        let fx = f(effs@[e as int]);
                        assert(fx =~= seq![((opj, j as i32, opi, i as i32), i as i32)]);
                        assert(threats_view(out@) =~= before + fx);
                    }
                } else {
                    push_back_threats(out, sup, effs[e].var, opj, j as i32, i as i32, ops);
                }
            }
            proof {
                let te = effs@.take(e + 1);
                assert(te.drop_last() =~= effs@.take(e as int));
                assert(te.last() == effs@[e as int]);
                assert(threats_view(out@) =~= mid + over_effs(te, pres@[p as int], f));
            }
            e = e + 1;
        }
        proof {
            assert(effs@.take(e as int) =~= effs@);
            assert(pres@.take(p + 1).drop_last() =~= pres@.take(p as int));
            assert(threats_view(out@) =~= base + over_pairs(pres@.take(p + 1), effs@, f));
        }
        p = p + 1;
    }
    proof {
        assert(pres@.take(p as int) =~= pres@);
    }
}

/// The threats that `menace2` finds, each with the step whose support it threatens: for each
/// step `i` and each other step `j` such that no support of step `i` is about the operator of
/// step `j`, what `menace2_block` gives for each pair of a precondition of step `i` and an
/// effect of step `j` on the same variable (`menace2_detail`).
pub fn menace2_origines(plan: &Vec<Op>, ground: &GroundProblem) -> (res: Vec<(Obligationtemp, i32)>)
    requires
        plan@.len() <= i32::MAX,
        ops_wf(ground.operators@, ground.initial_state@.len()),
        plan_in(ground.operators@, plan@),
    ensures
        threats_view(res@) == menace2_detail(ground.operators@, ground.initial_state@, plan@),
{
    let ghost (o, s, p) = (ground.operators@, ground.initial_state@, plan@);
    let ops = &ground.operators;
    let cause = all_supports(plan, &ground.initial_state, ops);
    let n = plan.len();
    let mut out: Vec<(Obligationtemp, i32)> = Vec::new();
    let mut i: usize = 0;
    while i < n
        invariant
            n == p.len() <= i32::MAX,
            p == plan@,
            o == ops@,
            ops_wf(o, s.len()),
            plan_in(o, p),
            cause@.len() == n,
            forall|k: int| 0 <= k < n ==> (#[trigger] cause@[k])@ == supports_of(o, s, p, k),
            i <= n,
            threats_view(out@) == over_steps(i as int, menace2_rows(o, s, p)),
        decreases n - i,
    {
        let ghost base = threats_view(out@);
        proof {
            lemma_supports_of(o, s, p, i as int);
            assert forall|t: int| 0 <= t < cause@[i as int]@.len() implies (#[trigger] cause@[i as int]@[t].spec_op() matches Some(
                op,
            ) ==> op.id < o.len()) by {
                let r = supports_of(o, s, p, i as int)[t];
                Resume::lemma_spec_new(None, -1i32);
                if r != Resume::spec_new(None, -1i32) {
                    Resume::lemma_spec_new(Some(p[r.spec_numero() as int]), r.spec_numero());
                }
            }
        }
        let mut j: usize = 0;
        while j < n
            invariant
                n == p.len() <= i32::MAX,
                p == plan@,
                o == ops@,
                plan_in(o, p),
                cause@.len() == n,
                forall|k: int| 0 <= k < n ==> (#[trigger] cause@[k])@ == supports_of(o, s, p, k),
                sup_ops_in(o, cause@[i as int]@),
                i < n,
                j <= n,
                threats_view(out@) == base + over_steps(j as int, menace2_row(o, s, p, i as int)),
            decreases n - j,
        {
            let ghost before = threats_view(out@);
            assert(p[i as int].id < o.len() && p[j as int].id < o.len());
            if i != j && !has_op(&cause[i], plan[j]) {
                push_threat_pairs(&mut out, ops.preconditions(plan[i]), ops.effects(plan[j]), &cause[i], plan[i], plan[j], i, j, ops);
            }
            proof {
                assert(threats_view(out@) =~= before + menace2_pair(o, s, p, i as int, j as int));
            }
            j = j + 1;
        }
        i = i + 1;
    }
    out
}

/// The threats that `menace2` finds over the whole plan, without their threatened steps.
pub open spec fn menace2_v(ops: Seq<OperatorV>, s: Seq<bool>, plan: Seq<Op>) -> Seq<OtV> {
    menace2_detail(ops, s, plan).map_values(|x: ThreatV| x.0)
}

/// The threats of the plan: for each step `i` and each other step `j` such that no support of
/// step `i` is about the operator of step `j`, for each pair of a precondition of step `i` and
/// an effect of step `j` on the same variable: if `j` comes after `i`, the constraint
/// `(J, j, I, i)`; otherwise, for each support of step `i` (operator `O`, step `k`), the
/// constraint `(J, j, O, k)` once per effect of `O` on that variable (`menace2_v`).
pub fn menace2(plan: Vec<Op>, ground: &GroundProblem) -> (res: Vec<Obligationtemp>)
    requires
        plan@.len() <= i32::MAX,
        ops_wf(ground.operators@, ground.initial_state@.len()),
        plan_in(ground.operators@, plan@),
    ensures
        ots_view(res@) == menace2_v(ground.operators@, ground.initial_state@, plan@),
{
    let detail = menace2_origines(&plan, ground);
    let ghost d = threats_view(detail@);
    let mut out: Vec<Obligationtemp> = Vec::new();
    let mut k: usize = 0;
    while k < detail.len()
        invariant
            k <= detail@.len(),
            d == threats_view(detail@),
            ots_view(out@) == d.take(k as int).map_values(|x: ThreatV| x.0),
        decreases detail@.len() - k,
    {
        let ghost before = out@;
        let (ot, _) = &detail[k];
        let nw = newot(ot.operateur().0, ot.etape().0, ot.operateur().1, ot.etape().1);
        out.push(nw);
        proof {
            assert(d[k as int].0 == ot_view(detail@[k as int].0));
            assert(ot_view(nw) == d[k as int].0);
            assert(ots_view(out@) =~= ots_view(before).push(ot_view(nw)));
            assert(d.take(k + 1).map_values(|x: ThreatV| x.0) =~= d.take(k as int).map_values(|x: ThreatV| x.0).push(d[k as int].0));
            assert(ots_view(out@) =~= d.take(k + 1).map_values(|x: ThreatV| x.0));
        }
        k = k + 1;
    }
    proof {
        assert(d.take(k as int) =~= d);
    }
    out
}

/// A write to a matrix: row, column, value.
pub type WriteV = (int, int, i32);

/// The matrix `m` after the writes `w`, in order.
pub open spec fn apply_writes(m: Seq<Seq<i32>>, w: Seq<WriteV>) -> Seq<Seq<i32>>
    decreases w.len(),
{
    if w.len() == 0 {
        m
    } else {
        let m2 = apply_writes(m, w.drop_last());
        let x = w.last();
        m2.update(x.0, m2[x.0].update(x.1, x.2))
    }
}

/// Writing `w1`, then `w2`, is writing `w1 + w2`.
pub proof fn lemma_apply_writes_concat(m: Seq<Seq<i32>>, w1: Seq<WriteV>, w2: Seq<WriteV>)
    ensures
        apply_writes(apply_writes(m, w1), w2) == apply_writes(m, w1 + w2),
    decreases w2.len(),
{
    if w2.len() == 0 {
        assert(w1 + w2 =~= w1);
    } else {
        lemma_apply_writes_concat(m, w1, w2.drop_last());
        assert((w1 + w2).drop_last() =~= w1 + w2.drop_last());
        assert((w1 + w2).last() == w2.last());
    }
}

/// The `n` by `n` matrix of zeros.
pub open spec fn zeros(n: int) -> Seq<Seq<i32>> {
    Seq::new(n as nat, |i: int| Seq::new(n as nat, |j: int| 0i32))
}

/// `w1` repeated `c` times.
pub open spec fn repeat_writes(w1: Seq<WriteV>, c: nat) -> Seq<WriteV>
    decreases c,
{
    if c == 0 {
        seq![]
    } else {
        repeat_writes(w1, (c - 1) as nat) + w1
    }
}

/// The writes for the supports `sup` of step `i` that change the variable `v`, which step `j`
/// threatens: for each such support at step `k`, in order, once per effect of its operator on
/// `v`: -1 at row `j`, column `k`, then -2 at row `j`, column `i`, if `j` comes before `k`;
/// -1 at row `j`, column `i` otherwise.
pub open spec fn back_writes(ops: Seq<OperatorV>, sup: Seq<Resume>, v: int, i: int, j: int) -> Seq<WriteV>
    decreases sup.len(),
{
    if sup.len() == 0 {
        seq![]
    } else {
        back_writes(ops, sup.drop_last(), v, i, j) + match sup.last().spec_op() {
            Some(o) => {
                let k = sup.last().spec_numero() as int;
                repeat_writes(
                    if j < k {
                        seq![(j, k, -1i32), (j, i, -2i32)]
                    } else {
                        seq![(j, i, -1i32)]
                    },
                    count_var(ops[o.id as int].eff, v),
                )
            },
            None => seq![],
        }
    }
}

/// The writes of `matricemenace` for a pair of a precondition of step `i` (supports `sup`) and
/// an effect `e` of step `j` on the same variable: 1 at row `j`, column `i` if `j` comes after
/// `i`; otherwise `back_writes` for the variable of `e`.
pub open spec fn threat_writes(ops: Seq<OperatorV>, sup: Seq<Resume>, i: int, j: int) -> spec_fn(Lit) -> Seq<WriteV> {
    |e: Lit|
        if j > i {
            seq![(j, i, 1i32)]
        } else {
            back_writes(ops, sup, e.var.id as int, i, j)
        }
}

/// The writes of `matricemenace` for steps `i` and `j`: when the steps differ, no support of
/// step `i` is about the operator of step `j` and no support of step `j` about that of step `i`,
/// `threat_writes` for each pair of a precondition of step `i` and an effect of step `j` on the
/// same variable.
pub open spec fn threat_pair_writes(ops: Seq<OperatorV>, s: Seq<bool>, plan: Seq<Op>, i: int, j: int) -> Seq<WriteV> {
    if i != j && !supported_by_op(supports_of(ops, s, plan, i), plan[j]) && !supported_by_op(
        supports_of(ops, s, plan, j),
        plan[i],
    ) {
        over_pairs(ops[plan[i].id as int].pre, ops[plan[j].id as int].eff, threat_writes(ops, supports_of(ops, s, plan, i), i, j))
    } else {
        seq![]
    }
}

/// The writes of `matricemenace` with step `i`, in the order of the other step.
pub open spec fn threat_row_writes(ops: Seq<OperatorV>, s: Seq<bool>, plan: Seq<Op>, i: int) -> spec_fn(int) -> Seq<WriteV> {
    |j: int| threat_pair_writes(ops, s, plan, i, j)
}

/// The writes of `matricemenace`, step by step.
pub open spec fn threat_rows_writes(ops: Seq<OperatorV>, s: Seq<bool>, plan: Seq<Op>) -> spec_fn(int) -> Seq<WriteV> {
    |i: int| over_steps(plan.len() as int, threat_row_writes(ops, s, plan, i))
}

/// The threat matrix of a plan of `n` steps: the `n + 1` by `n + 1` matrix of zeros after the
/// writes of `matricemenace`, in order.
pub open spec fn threat_matrix(ops: Seq<OperatorV>, s: Seq<bool>, plan: Seq<Op>) -> Seq<Seq<i32>> {
    apply_writes(zeros(plan.len() + 1int), over_steps(plan.len() as int, threat_rows_writes(ops, s, plan)))
}

/// Whether every support in `sup` that has an operator is at a step before `i`.
pub open spec fn sup_steps_before(sup: Seq<Resume>, i: int) -> bool {
    forall|t: int| 0 <= t < sup.len() ==> (#[trigger] sup[t].spec_op() is Some ==> 0 <= sup[t].spec_numero() < i)
}

/// The write `x` is within the first `n` rows and columns, and writes 1 below the diagonal
/// (row after column) or -1 or -2 above it (row before column).
spec fn write_ok(x: WriteV, n: int) -> bool {
    &&& 0 <= x.0 < n
    &&& 0 <= x.1 < n
    &&& (x.2 == 1 && x.0 > x.1) || ((x.2 == -1 || x.2 == -2) && x.0 < x.1)
}

/// Every write of `w` is as `write_ok` says.
spec fn writes_ok(w: Seq<WriteV>, n: int) -> bool {
    forall|t: int| 0 <= t < w.len() ==> write_ok(#[trigger] w[t], n)
}

/// The entry `x` at row `r` and column `c` of a matrix of threats among `n` steps: 0, or 1 below
/// the diagonal, or -1 or -2 above it, and 0 outside the first `n` rows and columns.
spec fn entry_ok(x: i32, r: int, c: int, n: int) -> bool {
    &&& x == 0 || (x == 1 && r > c) || ((x == -1 || x == -2) && r < c)
    &&& (r >= n || c >= n) ==> x == 0
}

/// `m` is a `size` by `size` matrix whose entries are as `entry_ok` says.
spec fn entries_ok(m: Seq<Seq<i32>>, size: int, n: int) -> bool {
    &&& m.len() == size
    &&& forall|r: int| 0 <= r < size ==> (#[trigger] m[r]).len() == size
    &&& forall|r: int, c: int| 0 <= r < size && 0 <= c < size ==> entry_ok(#[trigger] m[r][c], r, c, n)
}

proof fn lemma_writes_concat(a: Seq<WriteV>, b: Seq<WriteV>, n: int)
    requires
        writes_ok(a, n),
        writes_ok(b, n),
    ensures
        writes_ok(a + b, n),
{
    assert forall|t: int| 0 <= t < (a + b).len() implies write_ok(#[trigger] (a + b)[t], n) by {
        if t < a.len() {
            assert((a + b)[t] == a[t]);
        } else {
            assert((a + b)[t] == b[t - a.len()]);
        }
    }
}

proof fn lemma_repeat_ok(w: Seq<WriteV>, c: nat, n: int)
    requires
        writes_ok(w, n),
    ensures
        writes_ok(repeat_writes(w, c), n),
    decreases c,
{
    if c > 0 {
        lemma_repeat_ok(w, (c - 1) as nat, n);
        lemma_writes_concat(repeat_writes(w, (c - 1) as nat), w, n);
    }
}

proof fn lemma_back_ok(ops: Seq<OperatorV>, sup: Seq<Resume>, v: int, i: int, j: int, n: int)
    requires
        0 <= j < i < n,
        sup_steps_before(sup, i),
    ensures
        writes_ok(back_writes(ops, sup, v, i, j), n),
    decreases sup.len(),
{
    if sup.len() > 0 {
        let d = sup.drop_last();
        assert(sup_steps_before(d, i)) by {
            assert forall|t: int| 0 <= t < d.len() implies (#[trigger] d[t].spec_op() is Some ==> 0 <= d[t].spec_numero() < i) by {
                assert(d[t] == sup[t]);
            }
        }
        lemma_back_ok(ops, d, v, i, j, n);
        let last = sup.last();
        assert(last == sup[sup.len() - 1]);
        match last.spec_op() {
            Some(o) => {
                let k = last.spec_numero() as int;
                let blk = if j < k {
                    seq![(j, k, -1i32), (j, i, -2i32)]
                } else {
                    seq![(j, i, -1i32)]
                };
                assert(writes_ok(blk, n)) by {
                    if j < k {
                        assert(blk[0] == (j, k, -1i32));
                        assert(blk[1] == (j, i, -2i32));
                    } else {
                        assert(blk[0] == (j, i, -1i32));
                    }
                }
                lemma_repeat_ok(blk, count_var(ops[o.id as int].eff, v), n);
                lemma_writes_concat(back_writes(ops, d, v, i, j), repeat_writes(blk, count_var(ops[o.id as int].eff, v)), n);
            },
            None => {
                assert(back_writes(ops, sup, v, i, j) =~= back_writes(ops, d, v, i, j) + Seq::<WriteV>::empty());
            },
        }
    }
}

proof fn lemma_over_effs_ok(effs: Seq<Lit>, pre: Lit, f: spec_fn(Lit) -> Seq<WriteV>, n: int)
    requires
        forall|e: Lit| writes_ok(#[trigger] f(e), n),
    ensures
        writes_ok(over_effs(effs, pre, f), n),
    decreases effs.len(),
{
    if effs.len() > 0 {
        lemma_over_effs_ok(effs.drop_last(), pre, f, n);
        let tail = if effs.last().var == pre.var {
            f(effs.last())
        } else {
            seq![]
        };
        assert(writes_ok(tail, n)) by {
            if effs.last().var == pre.var {
                assert(writes_ok(f(effs.last()), n));
            }
        }
        lemma_writes_concat(over_effs(effs.drop_last(), pre, f), tail, n);
    }
}

proof fn lemma_over_pairs_ok(pres: Seq<Lit>, effs: Seq<Lit>, f: spec_fn(Lit) -> Seq<WriteV>, n: int)
    requires
        forall|e: Lit| writes_ok(#[trigger] f(e), n),
    ensures
        writes_ok(over_pairs(pres, effs, f), n),
    decreases pres.len(),
{
    if pres.len() > 0 {
        lemma_over_pairs_ok(pres.drop_last(), effs, f, n);
        lemma_over_effs_ok(effs, pres.last(), f, n);
        lemma_writes_concat(over_pairs(pres.drop_last(), effs, f), over_effs(effs, pres.last(), f), n);
    }
}

proof fn lemma_over_steps_ok(k: int, g: spec_fn(int) -> Seq<WriteV>, n: int)
    requires
        forall|x: int| 0 <= x < k ==> writes_ok(#[trigger] g(x), n),
    ensures
        writes_ok(over_steps(k, g), n),
    decreases k,
{
    if k > 0 {
        lemma_over_steps_ok(k - 1, g, n);
        assert(writes_ok(g(k - 1), n));
        lemma_writes_concat(over_steps(k - 1, g), g(k - 1), n);
    }
}

proof fn lemma_pair_writes_ok(ops: Seq<OperatorV>, s: Seq<bool>, plan: Seq<Op>, i: int, j: int)
    requires
        ops_wf(ops, s.len()),
        plan_in(ops, plan),
        plan.len() < i32::MAX,
        0 <= i < plan.len(),
        0 <= j < plan.len(),
    ensures
        writes_ok(threat_pair_writes(ops, s, plan, i, j), plan.len() as int),
{
    let n = plan.len() as int;
    if i != j {
        let sup = supports_of(ops, s, plan, i);
        lemma_supports_of(ops, s, plan, i);
        Resume::lemma_spec_new(None, -1i32);
        assert(sup_steps_before(sup, i)) by {
            assert forall|t: int| 0 <= t < sup.len() implies (#[trigger] sup[t].spec_op() is Some ==> 0 <= sup[t].spec_numero() < i) by {
                let r = sup[t];
                if r != Resume::spec_new(None, -1i32) {
                    Resume::lemma_spec_new(Some(plan[r.spec_numero() as int]), r.spec_numero());
                }
            }
        }
        let f = threat_writes(ops, sup, i, j);
        assert forall|e: Lit| writes_ok(#[trigger] f(e), n) by {
            if j > i {
                assert(f(e)[0] == (j, i, 1i32));
            } else {
                lemma_back_ok(ops, sup, e.var.id as int, i, j, n);
            }
        }
        lemma_over_pairs_ok(ops[plan[i].id as int].pre, ops[plan[j].id as int].eff, f, n);
    }
}

proof fn lemma_apply_ok(m: Seq<Seq<i32>>, w: Seq<WriteV>, size: int, n: int)
    requires
        entries_ok(m, size, n),
        writes_ok(w, n),
        n <= size,
    ensures
        entries_ok(apply_writes(m, w), size, n),
    decreases w.len(),
{
    if w.len() > 0 {
        let d = w.drop_last();
        assert(writes_ok(d, n)) by {
            assert forall|t: int| 0 <= t < d.len() implies write_ok(#[trigger] d[t], n) by {
                assert(d[t] == w[t]);
            }
        }
        lemma_apply_ok(m, d, size, n);
        let m2 = apply_writes(m, d);
        let x = w.last();
        assert(x == w[w.len() - 1]);
        assert(write_ok(x, n));
        let m3 = apply_writes(m, w);
        assert(m3 == m2.update(x.0, m2[x.0].update(x.1, x.2)));
        assert forall|r: int| 0 <= r < size implies (#[trigger] m3[r]).len() == size by {
            if r != x.0 {
                assert(m3[r] == m2[r]);
            }
        }
        assert forall|r: int, c: int| 0 <= r < size && 0 <= c < size implies entry_ok(#[trigger] m3[r][c], r, c, n) by {
            if r != x.0 {
                assert(m3[r] == m2[r]);
            } else if c != x.1 {
                assert(m3[r][c] == m2[r][c]);
            }
        }
    }
}

/// The entries of the threat matrix of a plan of `n` steps, an `n + 1` by `n + 1` matrix: each is
/// 0 (no threat), 1 below the diagonal (the step of the row comes after that of the column), or
/// -1 or -2 above it (the step of the row comes before); no step threatens itself, and the last
/// row and column are 0.
pub proof fn lemma_threat_matrix_entries(ops: Seq<OperatorV>, s: Seq<bool>, plan: Seq<Op>, r: int, c: int)
    requires
        ops_wf(ops, s.len()),
        plan_in(ops, plan),
        plan.len() < i32::MAX,
        0 <= r <= plan.len(),
        0 <= c <= plan.len(),
    ensures
        threat_matrix(ops, s, plan).len() == plan.len() + 1,
        threat_matrix(ops, s, plan)[r].len() == plan.len() + 1,
        ({
            let x = threat_matrix(ops, s, plan)[r][c];
            &&& x == 0 || x == 1 || x == -1 || x == -2
            &&& x == 1 ==> r > c
            &&& (x == -1 || x == -2) ==> r < c
            &&& (r == c || r == plan.len() || c == plan.len()) ==> x == 0
        }),
{
    let n = plan.len() as int;
    let rows = threat_rows_writes(ops, s, plan);
    assert forall|i: int| 0 <= i < plan.len() implies writes_ok(#[trigger] rows(i), n) by {
        let g = threat_row_writes(ops, s, plan, i);
        assert forall|j: int| 0 <= j < plan.len() implies writes_ok(#[trigger] g(j), n) by {
            lemma_pair_writes_ok(ops, s, plan, i, j);
        }
        lemma_over_steps_ok(plan.len() as int, g, n);
    }
    lemma_over_steps_ok(plan.len() as int, rows, n);
    assert(entries_ok(zeros(n + 1), n + 1, n));
    lemma_apply_ok(zeros(n + 1), over_steps(plan.len() as int, rows), n + 1, n);
    assert(entry_ok(threat_matrix(ops, s, plan)[r][c], r, c, n));
}

/// In the threat matrix of a plan, a threat 1 is only recorded at a row after its column (a
/// later step on an earlier one), a threat -1 or -2 only at a row before its column, no step
/// threatens itself, and the row and column after the last step hold no threat.
pub proof fn law_threat_matrix_orientation(ops: Seq<OperatorV>, s: Seq<bool>, plan: Seq<Op>, r: int, c: int)
    requires
        ops_wf(ops, s.len()),
        plan_in(ops, plan),
        plan.len() < i32::MAX,
        0 <= r <= plan.len(),
        0 <= c <= plan.len(),
    ensures
        threat_matrix(ops, s, plan)[r][c] == 1 ==> r > c,
        threat_matrix(ops, s, plan)[r][c] == -1 || threat_matrix(ops, s, plan)[r][c] == -2 ==> r < c,
        r == c || r == plan.len() || c == plan.len() ==> threat_matrix(ops, s, plan)[r][c] == 0,
{
    lemma_threat_matrix_entries(ops, s, plan, r, c);
}

/// Asked of the threat matrix of a plan, the question whether step `step1` threatens step
/// `step2` is answered yes exactly when `matricemenace` recorded a threat there, of whatever
/// kind: exactly when the entry is not 0 (1, -1, or -2 for a threat on a support link); it is
/// answered no for steps outside the matrix.
pub proof fn law_threat_question(ops: Seq<OperatorV>, s: Seq<bool>, plan: Seq<Op>, step1: i32, step2: i32)
    requires
        ops_wf(ops, s.len()),
        plan_in(ops, plan),
        plan.len() < i32::MAX,
    ensures
        0 <= step1 <= plan.len() && 0 <= step2 <= plan.len() ==> (threatens(threat_matrix(ops, s, plan), plan.len() + 1int, step1, step2)
            <==> threat_matrix(ops, s, plan)[step1 as int][step2 as int] != 0),
        !(0 <= step1 <= plan.len() && 0 <= step2 <= plan.len()) ==> !threatens(threat_matrix(ops, s, plan), plan.len() + 1int, step1, step2),
{
    if 0 <= step1 <= plan.len() && 0 <= step2 <= plan.len() {
        lemma_threat_matrix_entries(ops, s, plan, step1 as int, step2 as int);
    } else {
        lemma_threat_matrix_entries(ops, s, plan, 0, 0);
    }
}

/// Writes `back_writes` into `m`.
fn write_back_threats(m: &mut IntMatrix, sup: &Vec<Resume>, v: SVId, i: usize, j: usize, ops: &Operators)
    requires
        old(m).wf(),
        i < old(m)@.len(),
        j < old(m)@.len(),
        old(m).spec_ncols() == old(m)@.len(),
        sup_ops_in(ops@, sup@),
        sup_steps_before(sup@, i as int),
    ensures
        final(m).wf(),
        final(m).spec_ncols() == old(m).spec_ncols(),
        final(m)@.len() == old(m)@.len(),
        final(m)@ == apply_writes(old(m)@, back_writes(ops@, sup@, v.id as int, i as int, j as int)),
{
    let ghost m0 = m@;
    let mut t: usize = 0;
    while t < sup.len()
        invariant
            t <= sup@.len(),
            m.wf(),
            m@.len() == m0.len(),
            m.spec_ncols() == m0.len(),
            i < m0.len(),
            j < m0.len(),
            sup_ops_in(ops@, sup@),
            sup_steps_before(sup@, i as int),
            m@ == apply_writes(m0, back_writes(ops@, sup@.take(t as int), v.id as int, i as int, j as int)),
        decreases sup@.len() - t,
    {
        let ghost mid = m@;
        let ghost st = sup@.take(t + 1);
        proof {
            assert(st.drop_last() =~= sup@.take(t as int));
            assert(st.last() == sup@[t as int]);
        }
        match sup[t].op() {
            Some(o) => {
                assert(o.id < ops@.len());
                let effs = ops.effects(o);
                let k = sup[t].numero() as usize;
                let ghost blk = if j < k {
                    seq![(j as int, k as int, -1i32), (j as int, i as int, -2i32)]
                } else {
                    seq![(j as int, i as int, -1i32)]
                };
                let mut e: usize = 0;
                while e < effs.len()
                    invariant
                        e <= effs@.len(),
                        k < i < m0.len(),
                        j < m0.len(),
                        m.wf(),
                        m@.len() == m0.len(),
                        m.spec_ncols() == m0.len(),
                        blk == (if j < k {
                            seq![(j as int, k as int, -1i32), (j as int, i as int, -2i32)]
                        } else {
                            seq![(j as int, i as int, -1i32)]
                        }),
                        m@ == apply_writes(mid, repeat_writes(blk, count_var(effs@.take(e as int), v.id as int))),
                    decreases effs@.len() - e,
                {
                    let ghost before = m@;
                    let ghost c = count_var(effs@.take(e as int), v.id as int);
                    if effs[e].var == v {
                        if j < k {
                            m.set(j, k, -1);
                            m.set(j, i, -2);
                        } else {
                            m.set(j, i, -1);
                        }
                        proof {
                            lemma_apply_writes_concat(mid, repeat_writes(blk, c), blk);
                            reveal_with_fuel(apply_writes, 3);
                            if j < k {
                                assert(blk.drop_last() =~= seq![(j as int, k as int, -1i32)]);
                                assert(blk.drop_last().drop_last() =~= Seq::<WriteV>::empty());
                            } else {
                                assert(blk.drop_last() =~= Seq::<WriteV>::empty());
                            }
                            assert(m@ == apply_writes(before, blk));
                            assert(repeat_writes(blk, c + 1) == repeat_writes(blk, c) + blk);
                        }
                    }
                    proof {
                        let te = effs@.take(e + 1);
                        assert(te.drop_last() =~= effs@.take(e as int));
                        assert(te.last() == effs@[e as int]);
                        if effs@[e as int].var == v {
                            assert(count_var(te, v.id as int) == c + 1);
                        } else {
                            assert(count_var(te, v.id as int) == c);
                        }
                    }
                    e = e + 1;
                }
                proof {
                    assert(effs@.take(e as int) =~= effs@);
                    lemma_apply_writes_concat(m0, back_writes(ops@, sup@.take(t as int), v.id as int, i as int, j as int), repeat_writes(blk, count_var(effs@, v.id as int)));
                }
            },
            None => {},
        }
        proof {
            assert(m@ == apply_writes(m0, back_writes(ops@, st, v.id as int, i as int, j as int)));
        }
        t = t + 1;
    }
    proof {
        assert(sup@.take(t as int) =~= sup@);
    }
}

/// Writes `threat_writes` into `m` for each pair of a literal of `pres` and a literal of `effs`
/// on the same variable.
fn write_threat_pairs(m: &mut IntMatrix, pres: &[Lit], effs: &[Lit], sup: &Vec<Resume>, i: usize, j: usize, ops: &Operators)
    requires
        old(m).wf(),
        i < old(m)@.len(),
        j < old(m)@.len(),
        old(m).spec_ncols() == old(m)@.len(),
        sup_ops_in(ops@, sup@),
        sup_steps_before(sup@, i as int),
    ensures
        final(m).wf(),
        final(m).spec_ncols() == old(m).spec_ncols(),
        final(m)@.len() == old(m)@.len(),
        final(m)@ == apply_writes(old(m)@, over_pairs(pres@, effs@, threat_writes(ops@, sup@, i as int, j as int))),
{
    let ghost f = threat_writes(ops@, sup@, i as int, j as int);
    let ghost m0 = m@;
    let mut p: usize = 0;
    while p < pres.len()
        invariant
            p <= pres@.len(),
            m.wf(),
            m@.len() == m0.len(),
            m.spec_ncols() == m0.len(),
            i < m0.len(),
            j < m0.len(),
            sup_ops_in(ops@, sup@),
            sup_steps_before(sup@, i as int),
            f == threat_writes(ops@, sup@, i as int, j as int),
            m@ == apply_writes(m0, over_pairs(pres@.take(p as int), effs@, f)),
        decreases pres@.len() - p,
    {
        let ghost mid = m@;
        let mut e: usize = 0;
        while e < effs.len()
            invariant
                p < pres@.len(),
                e <= effs@.len(),
                m.wf(),
                m@.len() == m0.len(),
                m.spec_ncols() == m0.len(),
                i < m0.len(),
                j < m0.len(),
                sup_ops_in(ops@, sup@),
                sup_steps_before(sup@, i as int),
                f == threat_writes(ops@, sup@, i as int, j as int),
                m@ == apply_writes(mid, over_effs(effs@.take(e as int), pres@[p as int], f)),
            decreases effs@.len() - e,
        {
            let ghost before = m@;
            let ghost done = over_effs(effs@.take(e as int), pres@[p as int], f);
            if pres[p].var == effs[e].var {
                if j > i {
                    m.set(j, i, 1);
                    proof {
                        let fx = f(effs@[e as int]);
                        assert(fx =~= seq![(j as int, i as int, 1i32)]);
                        reveal_with_fuel(apply_writes, 2);
                        assert(fx.drop_last() =~= Seq::<WriteV>::empty());
                        assert(m@ == apply_writes(before, fx));
                    }
                } else {
                    write_back_threats(m, sup, effs[e].var, i, j, ops);
                }
                proof {
                    lemma_apply_writes_concat(mid, done, f(effs@[e as int]));
                }
            }
            proof {
                let te = effs@.take(e + 1);
                assert(te.drop_last() =~= effs@.take(e as int));
                assert(te.last() == effs@[e as int]);
                if pres@[p as int].var != effs@[e as int].var {
                    assert(over_effs(te, pres@[p as int], f) =~= done);
                }
            }
            e = e + 1;
        }
        proof {
            assert(effs@.take(e as int) =~= effs@);
            assert(pres@.take(p + 1).drop_last() =~= pres@.take(p as int));
            lemma_apply_writes_concat(m0, over_pairs(pres@.take(p as int), effs@, f), over_effs(effs@, pres@[p as int], f));
        }
        p = p + 1;
    }
    proof {
        assert(pres@.take(p as int) =~= pres@);
    }
}

/// The threat matrix of the plan (`threat_matrix`): for each step `i` and each other step `j`
/// such that no support of either is about the operator of the other, for each pair of a
/// precondition of step `i` and an effect of step `j` on the same variable: 1 at row `j`,
/// column `i` if `j` comes after `i` (`i` goes after `j`); otherwise, for each support of step
/// `i` at a step `k` that changes that variable, -1 at row `j`, column `k` and -2 at row `j`,
/// column `i` if `j` comes before `k`, -1 at row `j`, column `i` if not (`j` goes before `i`).
pub fn matricemenace(plan: &Vec<Op>, ground: &GroundProblem) -> (res: IntMatrix)
    requires
        plan@.len() < i32::MAX,
        ops_wf(ground.operators@, ground.initial_state@.len()),
        plan_in(ground.operators@, plan@),
    ensures
        res.wf(),
        res.spec_ncols() == plan@.len() + 1,
        res@ == threat_matrix(ground.operators@, ground.initial_state@, plan@),
{
    let ghost (o, s, p) = (ground.operators@, ground.initial_state@, plan@);
    let ops = &ground.operators;
    let n = plan.len();
    let mut matrice = IntMatrix::from_diagonal_element(n + 1, n + 1, 0);
    let ghost z = zeros(n + 1);
    proof {
        assert forall|r: int| 0 <= r < n + 1 implies #[trigger] matrice@[r] =~= z[r] by {
            assert forall|c: int| 0 <= c < n + 1 implies matrice@[r][c] == z[r][c] by {
                assert(matrice.at(r, c) == 0);
            }
        }
        assert(matrice@ =~= z);
    }
    let cause = all_supports(plan, &ground.initial_state, ops);
    let mut i: usize = 0;
    while i < n
        invariant
            n == p.len() < i32::MAX,
            p == plan@,
            o == ops@,
            ops_wf(o, s.len()),
            plan_in(o, p),
            cause@.len() == n,
            forall|k: int| 0 <= k < n ==> (#[trigger] cause@[k])@ == supports_of(o, s, p, k),
            i <= n,
            z == zeros(n + 1),
            matrice.wf(),
            matrice@.len() == n + 1,
            matrice.spec_ncols() == n + 1,
            matrice@ == apply_writes(z, over_steps(i as int, threat_rows_writes(o, s, p))),
        decreases n - i,
    {
        let ghost base = over_steps(i as int, threat_rows_writes(o, s, p));
        proof {
            lemma_supports_of(o, s, p, i as int);
            Resume::lemma_spec_new(None, -1i32);
            assert forall|t: int| 0 <= t < cause@[i as int]@.len() implies (#[trigger] cause@[i as int]@[t].spec_op() matches Some(
                op,
            ) ==> op.id < o.len()) by {
                let r = supports_of(o, s, p, i as int)[t];
                if r != Resume::spec_new(None, -1i32) {
                    Resume::lemma_spec_new(Some(p[r.spec_numero() as int]), r.spec_numero());
                }
            }
            assert forall|t: int| 0 <= t < cause@[i as int]@.len() implies (#[trigger] cause@[i as int]@[t].spec_op() is Some ==> 0
                <= cause@[i as int]@[t].spec_numero() < i) by {
                let r = supports_of(o, s, p, i as int)[t];
                if r != Resume::spec_new(None, -1i32) {
                    Resume::lemma_spec_new(Some(p[r.spec_numero() as int]), r.spec_numero());
                }
            }
        }
        let mut j: usize = 0;
        while j < n
            invariant
                n == p.len() < i32::MAX,
                p == plan@,
                o == ops@,
                plan_in(o, p),
                cause@.len() == n,
                forall|k: int| 0 <= k < n ==> (#[trigger] cause@[k])@ == supports_of(o, s, p, k),
                sup_ops_in(o, cause@[i as int]@),
                sup_steps_before(cause@[i as int]@, i as int),
                i < n,
                j <= n,
                z == zeros(n + 1),
                matrice.wf(),
                matrice@.len() == n + 1,
                matrice.spec_ncols() == n + 1,
                matrice@ == apply_writes(z, base + over_steps(j as int, threat_row_writes(o, s, p, i as int))),
            decreases n - j,
        {
            let ghost done = base + over_steps(j as int, threat_row_writes(o, s, p, i as int));
            assert(p[i as int].id < o.len() && p[j as int].id < o.len());
            if i != j && !has_op(&cause[i], plan[j]) && !has_op(&cause[j], plan[i]) {
                write_threat_pairs(&mut matrice, ops.preconditions(plan[i]), ops.effects(plan[j]), &cause[i], i, j, ops);
            }
            proof {
                let w = threat_pair_writes(o, s, p, i as int, j as int);
                lemma_apply_writes_concat(z, done, w);
                assert(done + w =~= base + over_steps(j + 1, threat_row_writes(o, s, p, i as int)));
            }
            j = j + 1;
        }
        proof {
            assert(base + over_steps(n as int, threat_row_writes(o, s, p, i as int)) =~= over_steps(i + 1, threat_rows_writes(o, s, p)));
        }
        i = i + 1;
    }
    matrice
}

/// Whether one of the records `rs` is about step `num`.
fn has_numero(rs: &Vec<Resume>, num: i32) -> (b: bool)
    ensures
        b == has_step(rs@, num as int),
{
    let mut t: usize = 0;
    while t < rs.len()
        invariant
            t <= rs@.len(),
            forall|u: int| 0 <= u < t ==> #[trigger] rs@[u].spec_numero() != num,
        decreases rs@.len() - t,
    {
        if rs[t].numero() == num {
            return true;
        }
        t = t + 1;
    }
    false
}

/// The constraints that `inversibilite` finds for step `u`: when `u` is not the first step and
/// step `u - 1` is not among its supports, the constraint `(U', u - 1, U, u)` (`U'` the
/// operator of step `u - 1`, `U` that of step `u`) once per pair of a precondition of `U'` and
/// an effect of `U` on the same variable.
pub open spec fn inversion_pair(ops: Seq<OperatorV>, s: Seq<bool>, plan: Seq<Op>, u: int) -> Seq<OtV> {
    if u >= 1 && !has_step(supports_of(ops, s, plan, u), u - 1) {
        over_pairs(
            ops[plan[u - 1].id as int].pre,
            ops[plan[u].id as int].eff,
            constant_block((plan[u - 1], (u - 1) as i32, plan[u], u as i32)),
        )
    } else {
        seq![]
    }
}

/// The constraints that `inversibilite` finds, step by step.
pub open spec fn inversion_steps(ops: Seq<OperatorV>, s: Seq<bool>, plan: Seq<Op>) -> spec_fn(int) -> Seq<OtV> {
    |u: int| inversion_pair(ops, s, plan, u)
}

/// Which neighbouring steps of the plan cannot be swapped: for each step `u` after the first
/// whose supports do not include step `u - 1`, the constraint `(U', u - 1, U, u)` once per
/// pair of a precondition of step `u - 1` and an effect of step `u` on the same variable.
pub fn inversibilite(plan: Vec<Op>, ground: &GroundProblem) -> (res: Vec<Obligationtemp>)
    requires
        plan@.len() <= i32::MAX,
        ops_wf(ground.operators@, ground.initial_state@.len()),
        plan_in(ground.operators@, plan@),
    ensures
        ots_view(res@) == over_steps(plan@.len() as int, inversion_steps(ground.operators@, ground.initial_state@, plan@)),
{
    let ghost (o, s, p) = (ground.operators@, ground.initial_state@, plan@);
    let ops = &ground.operators;
    let n = plan.len();
    let mut out: Vec<Obligationtemp> = Vec::new();
    proof {
        let g = inversion_steps(o, s, p);
        assert(g(0) =~= Seq::<OtV>::empty());
        assert(over_steps(0, g) =~= Seq::<OtV>::empty());
        assert(ots_view(out@) =~= over_steps(1, g));
    }
    if n == 0 {
        return out;
    }
    let mut u: usize = 1;
    while u < n
        invariant
            n == p.len() <= i32::MAX,
            p == plan@,
            o == ops@,
            ops_wf(o, s.len()),
            plan_in(o, p),
            1 <= u <= n,
            s == ground.initial_state@,
            ots_view(out@) == over_steps(u as int, inversion_steps(o, s, p)),
        decreases n - u,
    {
        let ghost before = ots_view(out@);
        let cause = supports_at(u, &plan, &ground.initial_state, ops);
        assert(p[u - 1].id < o.len() && p[u as int].id < o.len());
        if !has_numero(&cause, (u - 1) as i32) {
            push_for_pairs(&mut out, ops.preconditions(plan[u - 1]), ops.effects(plan[u]), plan[u - 1], (u - 1) as i32, plan[u], u as i32);
        }
        proof {
            assert(ots_view(out@) =~= before + inversion_pair(o, s, p, u as int));
        }
        u = u + 1;
    }
    out
}

/// The supports `i` (up to `last`) of step `s2` in `support` (an entry 1) that step `s1` must come
/// before in `menace` (an entry -1), in order; entries out of the matrices count as 0.
pub open spec fn threatened_links_v(support: Seq<Seq<i32>>, sncols: int, menace: Seq<Seq<i32>>, mncols: int, s1: int, s2: int, k: int) -> Seq<usize>
    decreases k,
{
    if k <= 0 {
        seq![]
    } else {
        let i = k - 1;
        threatened_links_v(support, sncols, menace, mncols, s1, s2, k - 1) + if i < support.len() && s2 < sncols && support[i][s2]
            == 1 && s1 < menace.len() && i < mncols && menace[s1][i] == -1 {
            seq![i as usize]
        } else {
            seq![]
        }
    }
}

/// The supports of step `step2` (among the first `n + 1` rows of `support`) whose link step
/// `step1` threatens: those that `step1` must come before in `menace`, in order.
pub fn threatened_links(plan: &Vec<Op>, menace: &IntMatrix, support: &IntMatrix, step1: usize, step2: usize) -> (res: Vec<usize>)
    requires
        menace.wf(),
        support.wf(),
        plan@.len() < usize::MAX,
    ensures
        res@ == threatened_links_v(
            support@,
            support.spec_ncols() as int,
            menace@,
            menace.spec_ncols() as int,
            step1 as int,
            step2 as int,
            plan@.len() + 1int,
        ),
{
    let n = plan.len();
    let mut out: Vec<usize> = Vec::new();
    let mut i: usize = 0;
    while i < n + 1
        invariant
            i <= n + 1,
            n == plan@.len() < usize::MAX,
            menace.wf(),
            support.wf(),
            out@ == threatened_links_v(support@, support.spec_ncols() as int, menace@, menace.spec_ncols() as int, step1 as int, step2 as int, i as int),
        decreases n + 1 - i,
    {
        if support.get_opt(i, step2) == Some(1i32) && menace.get_opt(step1, i) == Some(-1i32) {
            out.push(i);
        }
        proof {
            assert(out@ =~= threatened_links_v(support@, support.spec_ncols() as int, menace@, menace.spec_ncols() as int, step1 as int, step2 as int, i + 1));
        }
        i = i + 1;
    }
    out
}

} // verus!
