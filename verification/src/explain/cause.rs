//! Causal links computed step by step, and the support and threat matrices built from them.
use vstd::prelude::*;
use crate::classical::state::{Op, Lit, State, Operators, OperatorV, apply, lits_in, ops_wf};
use crate::classical::GroundProblem;
use crate::explain::state2::Resume;
use crate::explain::matrix::IntMatrix;
use crate::explain::explain::{
    plan_in, hist_step, vars_used, h_step, linked, support_entry, goal_supports, has_step, matricesupport, count_var,
};
use crate::explain::threats::{threat_matrix, matricemenace};

verus! {

/// Step `etape` of the plan from the state `initial_state` with the history `histo`: the state
/// reached by applying its effects, the history updated (each variable whose value changed is now
/// due to this step), and the records of its supports (for each variable of its preconditions,
/// in increasing order, once per precondition on it, its record in `histo`).
pub fn causalite2(etape: i32, plan: &Vec<Op>, initial_state: &State, ops: &Operators, histo: &Vec<Resume>) -> (res: (
    State,
    Vec<Resume>,
    Vec<Resume>,
))
    requires
        0 <= etape < plan@.len(),
        plan_in(ops@, plan@),
        ops_wf(ops@, initial_state@.len()),
        histo@.len() >= initial_state@.len(),
    ensures
        res.0@ == apply(initial_state@, ops@[plan@[etape as int].id as int].eff),
        res.1@ == hist_step(
            histo@.subrange(0, initial_state@.len() as int),
            initial_state@,
            res.0@,
            plan@[etape as int],
            etape,
        ),
        res.2@ == vars_used(ops@[plan@[etape as int].id as int].pre, initial_state@.len()).map_values(|v: int| histo@[v]),
{
    let op = plan[etape as usize];
    assert(plan@[etape as int].id < ops@.len());
    let link = linked(ops.preconditions(op), initial_state.size(), histo);
    let h = copy_history(histo);
    let (e1, h2) = h_step(initial_state, &op, ops, etape, h);
    (e1, h2, link)
}

/// A copy of a history.
fn copy_history(histo: &Vec<Resume>) -> (res: Vec<Resume>)
    ensures
        res@ == histo@,
{
    let mut h: Vec<Resume> = Vec::new();
    let mut k: usize = 0;
    while k < histo.len()
        invariant
            k <= histo@.len(),
            h@ == histo@.take(k as int),
        decreases histo@.len() - k,
    {
        h.push(histo[k]);
        assert(h@ =~= histo@.take(k + 1));
        k = k + 1;
    }
    assert(histo@.take(k as int) =~= histo@);
    h
}

/// The records of the supports of the goals from the state `initial_state` with the history
/// `histo`: for each variable of the goals, in increasing order, once per goal on it, its record
/// in `histo`.
pub fn causalitegoals2(plan: &Vec<Op>, initial_state: &State, ops: &Operators, histo: &Vec<Resume>, goals: &Vec<Lit>) -> (res:
    Vec<Resume>)
    requires
        histo@.len() >= initial_state@.len(),
    ensures
        res@ == vars_used(goals@, initial_state@.len()).map_values(|v: int| histo@[v]),
{
    linked(goals.as_slice(), initial_state.size(), histo)
}

/// The entry at row `i`, column `j` of `matricesupport2` for a plan of `n` steps: that of the
/// support matrix, and also 1 at row `n + 1` (the initial state), column `n` (the goals) where
/// a goal holds from the initial state on.
pub open spec fn support2_entry(ops: Seq<OperatorV>, s: Seq<bool>, plan: Seq<Op>, goals: Seq<Lit>, i: int, j: int) -> i32 {
    let n = plan.len() as int;
    if i == n + 1 && j == n && has_step(goal_supports(ops, s, plan, goals), -1) {
        1
    } else {
        support_entry(ops, s, plan, goals, i, j)
    }
}

/// The support matrix of the plan, of size `n + 2` for `n` steps, as `support2_entry` says: 1
/// where step `i` supports step `j` (column `n` for the goals, row `n + 1` for the initial state,
/// including the goals that hold from the initial state on), 0 elsewhere.
pub fn matricesupport2(plan: &Vec<Op>, ground: &GroundProblem) -> (res: IntMatrix)
    requires
        plan@.len() < i32::MAX,
        ops_wf(ground.operators@, ground.initial_state@.len()),
        plan_in(ground.operators@, plan@),
    ensures
        res.wf(),
        res.spec_ncols() == plan@.len() + 2,
        res@ == Seq::new(
            (plan@.len() + 2) as nat,
            |i: int|
                Seq::new(
                    (plan@.len() + 2) as nat,
                    |j: int| support2_entry(ground.operators@, ground.initial_state@, plan@, ground.goals@, i, j),
                ),
        ),
{
    let ghost (o, s, p, g) = (ground.operators@, ground.initial_state@, plan@, ground.goals@);
    let n = plan.len();
    let mut m = matricesupport(plan, ground);
    let cause = crate::explain::explain::goal_supports_of(plan, &ground.initial_state, &ground.operators, &ground.goals);
    let mut t: usize = 0;
    let mut init_goal = false;
    while t < cause.len()
        invariant
            t <= cause@.len(),
            init_goal == exists|w: int| 0 <= w < t && #[trigger] cause@[w].spec_numero() == -1,
        decreases cause@.len() - t,
    {
        if cause[t].numero() == -1 {
            init_goal = true;
        }
        proof {
            if cause@[t as int].spec_numero() == -1 {
                assert(0 <= t < t + 1 && cause@[t as int].spec_numero() == -1);
            }
        }
        t = t + 1;
    }
    let ghost m0 = m@;
    if init_goal {
        m.set(n + 1, n, 1);
    }
    proof {
        let e = Seq::new(
            (n + 2) as nat,
            |i: int| Seq::new((n + 2) as nat, |j: int| support2_entry(o, s, p, g, i, j)),
        );
        assert(init_goal == has_step(goal_supports(o, s, p, g), -1));
        assert forall|i: int| 0 <= i < n + 2 implies (#[trigger] m@[i]) =~= e[i] by {
            assert forall|j: int| 0 <= j < n + 2 implies m@[i][j] == e[i][j] by {
                assert(m0[i][j] == support_entry(o, s, p, g, i, j));
            }
        }
        assert(m@ =~= e);
    }
    m
}

/// The threat matrix of the plan, with the supports of each step computed step by step: the
/// same matrix as `matricemenace` (`threat_matrix`).
pub fn matricemenace2(plan: &Vec<Op>, ground: &GroundProblem) -> (res: IntMatrix)
    requires
        plan@.len() < i32::MAX,
        ops_wf(ground.operators@, ground.initial_state@.len()),
        plan_in(ground.operators@, plan@),
    ensures
        res.wf(),
        res.spec_ncols() == plan@.len() + 1,
        res@ == threat_matrix(ground.operators@, ground.initial_state@, plan@),
{
    matricemenace(plan, ground)
}

/// The last of the first `k` steps whose operator has an effect on the variable `v` (whatever its
/// value), or `n + 1` (the initial state) if none has.
pub open spec fn last_effect(ops: Seq<OperatorV>, plan: Seq<Op>, k: int, v: int) -> int
    decreases k,
{
    if k <= 0 {
        plan.len() + 1int
    } else if count_var(ops[plan[k - 1].id as int].eff, v) > 0 {
        k - 1
    } else {
        last_effect(ops, plan, k - 1, v)
    }
}

/// Whether one of the literals `lits` is about a variable whose last effect (before step `k`) is
/// at step `i`.
pub open spec fn hit_by(ops: Seq<OperatorV>, plan: Seq<Op>, lits: Seq<Lit>, k: int, i: int) -> bool {
    exists|c: int| 0 <= c < lits.len() && last_effect(ops, plan, k, (#[trigger] lits[c]).var.id as int) == i
}

/// The entry at row `i`, column `j` of `matricesupport3` for a plan of `n` steps: 1 where the
/// last effect, before step `j`, on a variable of a precondition of step `j` is at step `i` (row
/// `n + 1` for the initial state), or, in column `n`, where the last effect on a variable of a
/// goal is at step `i`; 0 elsewhere.
pub open spec fn support3_entry(ops: Seq<OperatorV>, plan: Seq<Op>, goals: Seq<Lit>, i: int, j: int) -> i32 {
    let n = plan.len() as int;
    if (0 <= j < n && hit_by(ops, plan, ops[plan[j].id as int].pre, j, i)) || (j == n && hit_by(ops, plan, goals, n, i)) {
        1
    } else {
        0
    }
}

/// The support matrix of the plan by last effect, of size `n + 2` for `n` steps
/// (`support3_entry`): the support of a precondition or goal is the last step with an effect on
/// its variable, whether or not that effect changed its value.
#[verifier::rlimit(40)]
pub fn matricesupport3(plan: &[Op], ground: &GroundProblem) -> (res: IntMatrix)
    requires
        plan@.len() + 2 <= usize::MAX,
        ops_wf(ground.operators@, ground.initial_state@.len()),
        plan_in(ground.operators@, plan@),
        lits_in(ground.goals@, ground.initial_state@.len()),
    ensures
        res.wf(),
        res.spec_ncols() == plan@.len() + 2,
        res@ == Seq::new(
            (plan@.len() + 2) as nat,
            |i: int| Seq::new((plan@.len() + 2) as nat, |j: int| support3_entry(ground.operators@, plan@, ground.goals@, i, j)),
        ),
{
    let ghost (o, p, g) = (ground.operators@, plan@, ground.goals@);
    let ops = &ground.operators;
    let length = plan.len();
    let mut matrice = IntMatrix::from_diagonal_element(length + 2, length + 2, 0);
    let goal_state_id = plan.len();
    let init_state_id = plan.len() + 1;
    let nv = ground.initial_state.size();
    let mut changed: Vec<usize> = Vec::new();
    while changed.len() < nv
        invariant
            changed@.len() <= nv,
            forall|v: int| 0 <= v < changed@.len() ==> changed@[v] == init_state_id,
        decreases nv - changed@.len(),
    {
        changed.push(init_state_id);
    }
    let mut step: usize = 0;
    while step < length
        invariant
            step <= length == p.len(),
            length + 2 <= usize::MAX,
            init_state_id == length + 1,
            p == plan@,
            o == ops@,
            nv == ground.initial_state@.len(),
            ops_wf(o, nv as nat),
            plan_in(o, p),
            changed@.len() == nv,
            forall|v: int| 0 <= v < nv ==> #[trigger] changed@[v] == last_effect(o, p, step as int, v),
            matrice.wf(),
            matrice@.len() == length + 2,
            matrice.spec_ncols() == length + 2,
            forall|i: int, j: int| 0 <= i < length + 2 && 0 <= j < length + 2 ==> #[trigger] matrice.at(i, j) == if 0 <= j
                < step && hit_by(o, p, o[p[j].id as int].pre, j, i) {
                1i32
            } else {
                0i32
            },
        decreases length - step,
    {
        let op = plan[step];
        assert(p[step as int].id < o.len());
        let pres = ops.preconditions(op);
        let effs = ops.effects(op);
        proof {
            assert(lits_in(pres@, nv as nat) && lits_in(effs@, nv as nat));
            assert forall|v: int| 0 <= v < nv implies #[trigger] changed@[v] < length + 2 by {
                lemma_last_effect_range(o, p, step as int, v);
            }
        }
        let mut c: usize = 0;
        while c < pres.len()
            invariant
                c <= pres@.len(),
                step < length == p.len(),
                length + 2 <= usize::MAX,
                p == plan@,
                o == ops@,
                pres@ == o[p[step as int].id as int].pre,
                lits_in(pres@, nv as nat),
                changed@.len() == nv,
                forall|v: int| 0 <= v < nv ==> #[trigger] changed@[v] == last_effect(o, p, step as int, v),
                forall|v: int| 0 <= v < nv ==> #[trigger] changed@[v] < length + 2,
                matrice.wf(),
                matrice@.len() == length + 2,
                matrice.spec_ncols() == length + 2,
                forall|i: int, j: int| 0 <= i < length + 2 && 0 <= j < length + 2 ==> #[trigger] matrice.at(i, j) == if (0
                    <= j < step && hit_by(o, p, o[p[j].id as int].pre, j, i)) || (j == step && hit_by(
                    o,
                    p,
                    pres@.take(c as int),
                    step as int,
                    i,
                )) {
                    1i32
                } else {
                    0i32
                },
            decreases pres@.len() - c,
        {
            let var_id = pres[c].var().id;
            assert(var_id < nv);
            let ghost mb = matrice;
            let row = changed[var_id];
            assert(row == last_effect(o, p, step as int, var_id as int));
            matrice.set(row, step, 1);
            proof {
                let pc = pres@.take(c + 1);
                assert forall|i: int, j: int| 0 <= i < length + 2 && 0 <= j < length + 2 implies #[trigger] matrice.at(i, j)
                    == if (0 <= j < step && hit_by(o, p, o[p[j].id as int].pre, j, i)) || (j == step && hit_by(
                    o,
                    p,
                    pc,
                    step as int,
                    i,
                )) {
                    1i32
                } else {
                    0i32
                } by {
                    assert(mb.at(i, j) == if (0 <= j < step && hit_by(o, p, o[p[j].id as int].pre, j, i)) || (j == step && hit_by(
                        o,
                        p,
                        pres@.take(c as int),
                        step as int,
                        i,
                    )) {
                        1i32
                    } else {
                        0i32
                    });
                    assert(pc[c as int] == pres@[c as int]);
                    if hit_by(o, p, pres@.take(c as int), step as int, i) {
                        let w = choose|w: int| 0 <= w < c && last_effect(o, p, step as int, (#[trigger] pres@.take(c as int)[w]).var.id as int) == i;
                        assert(pc[w] == pres@.take(c as int)[w]);
                    }
                    if j == step && i == row {
                        assert(last_effect(o, p, step as int, pc[c as int].var.id as int) == i);
                    }
                    if hit_by(o, p, pc, step as int, i) && !hit_by(o, p, pres@.take(c as int), step as int, i) {
                        let w = choose|w: int| 0 <= w < c + 1 && last_effect(o, p, step as int, (#[trigger] pc[w]).var.id as int) == i;
                        if w < c {
                            assert(pres@.take(c as int)[w] == pc[w]);
                        }
                    }
                }
            }
            c = c + 1;
        }
        proof {
            assert(pres@.take(c as int) =~= pres@);
        }
        let mut e: usize = 0;
        while e < effs.len()
            invariant
                e <= effs@.len(),
                step < length,
                effs@ == o[p[step as int].id as int].eff,
                lits_in(effs@, nv as nat),
                changed@.len() == nv,
                forall|v: int| 0 <= v < nv ==> #[trigger] changed@[v] == if count_var(effs@.take(e as int), v) > 0 {
                    step as int
                } else {
                    last_effect(o, p, step as int, v)
                },
            decreases effs@.len() - e,
        {
            let var_id = effs[e].var().id;
            assert(var_id < nv);
            changed.set(var_id, step);
            proof {
                let et = effs@.take(e + 1);
                assert(et.drop_last() =~= effs@.take(e as int));
                assert(et.last() == effs@[e as int]);
            }
            e = e + 1;
        }
        proof {
            assert(effs@.take(e as int) =~= effs@);
        }
        step = step + 1;
    }
    proof {
        assert forall|v: int| 0 <= v < nv implies #[trigger] changed@[v] < length + 2 by {
            lemma_last_effect_range(o, p, length as int, v);
        }
    }
    let ghost m1 = matrice;
    let mut q: usize = 0;
    while q < ground.goals.len()
        invariant
            q <= g.len(),
            g == ground.goals@,
            length == p.len(),
            length + 2 <= usize::MAX,
            goal_state_id == length,
            lits_in(g, nv as nat),
            changed@.len() == nv,
            forall|v: int| 0 <= v < nv ==> #[trigger] changed@[v] == last_effect(o, p, length as int, v),
            forall|v: int| 0 <= v < nv ==> #[trigger] changed@[v] < length + 2,
            matrice.wf(),
            matrice@.len() == length + 2,
            matrice.spec_ncols() == length + 2,
            forall|i: int, j: int| 0 <= i < length + 2 && 0 <= j < length + 2 ==> #[trigger] matrice.at(i, j) == if (0 <= j
                < length && hit_by(o, p, o[p[j].id as int].pre, j, i)) || (j == length && hit_by(o, p, g.take(q as int), length as int, i)) {
                1i32
            } else {
                0i32
            },
        decreases g.len() - q,
    {
        let var_id = ground.goals[q].var().id;
        assert(var_id < nv);
        let row = changed[var_id];
        assert(row == last_effect(o, p, length as int, var_id as int));
        let ghost mb = matrice;
        matrice.set(row, goal_state_id, 1);
        proof {
            let gq = g.take(q + 1);
            assert forall|i: int, j: int| 0 <= i < length + 2 && 0 <= j < length + 2 implies #[trigger] matrice.at(i, j) == if (0
                <= j < length && hit_by(o, p, o[p[j].id as int].pre, j, i)) || (j == length && hit_by(o, p, gq, length as int, i)) {
                1i32
            } else {
                0i32
            } by {
                assert(mb.at(i, j) == if (0 <= j < length && hit_by(o, p, o[p[j].id as int].pre, j, i)) || (j == length && hit_by(
                    o,
                    p,
                    g.take(q as int),
                    length as int,
                    i,
                )) {
                    1i32
                } else {
                    0i32
                });
                assert(gq[q as int] == g[q as int]);
                if hit_by(o, p, g.take(q as int), length as int, i) {
                    let w = choose|w: int| 0 <= w < q && last_effect(o, p, length as int, (#[trigger] g.take(q as int)[w]).var.id as int) == i;
                    assert(gq[w] == g.take(q as int)[w]);
                }
                if j == length && i == row {
                    assert(last_effect(o, p, length as int, gq[q as int].var.id as int) == i);
                }
                if hit_by(o, p, gq, length as int, i) && !hit_by(o, p, g.take(q as int), length as int, i) {
                    let w = choose|w: int| 0 <= w < q + 1 && last_effect(o, p, length as int, (#[trigger] gq[w]).var.id as int) == i;
                    if w < q {
                        assert(g.take(q as int)[w] == gq[w]);
                    }
                }
            }
        }
        q = q + 1;
    }
    proof {
        assert(g.take(q as int) =~= g);
        let e = Seq::new(
            (length + 2) as nat,
            |i: int| Seq::new((length + 2) as nat, |j: int| support3_entry(o, p, g, i, j)),
        );
        assert forall|i: int| 0 <= i < length + 2 implies (#[trigger] matrice@[i]) =~= e[i] by {
            assert forall|j: int| 0 <= j < length + 2 implies matrice@[i][j] == e[i][j] by {
                assert(matrice.at(i, j) == support3_entry(o, p, g, i, j));
            }
        }
        assert(matrice@ =~= e);
    }
    matrice
}

/// The last effect before step `k` is at an earlier step, or is the initial state.
proof fn lemma_last_effect_range(ops: Seq<OperatorV>, plan: Seq<Op>, k: int, v: int)
    requires
        0 <= k <= plan.len(),
    ensures
        (0 <= last_effect(ops, plan, k, v) < k) || last_effect(ops, plan, k, v) == plan.len() + 1,
    decreases k,
{
    if k > 0 {
        lemma_last_effect_range(ops, plan, k - 1, v);
    }
}

} // verus!
