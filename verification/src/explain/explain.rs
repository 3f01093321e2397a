//! Explanations of a plan: which steps support which, and which steps are necessary.
use vstd::prelude::*;
use crate::classical::state::{Op, Lit, SVId, State, Operators, OperatorV, apply, lits_in, ops_wf, lemma_apply_len};
use crate::classical::GroundProblem;
use crate::explain::state2::{Resume, Necessaire, newresume, defaultresume, goalresume, newnec, newnecgoal, initnec};
use crate::explain::matrix::IntMatrix;
use crate::explain::weighted::{
    NecV, nec_view, necs_view, weighted_run, relax, relax_one, unit, min_pos, is_first_min, lemma_min_pos, necessity_start,
    lemma_start,
};

verus! {

/// Whether every operator of the plan is one of `ops`.
pub open spec fn plan_in(ops: Seq<OperatorV>, plan: Seq<Op>) -> bool {
    forall|i: int| 0 <= i < plan.len() ==> (#[trigger] plan[i]).id < ops.len()
}

/// The state after applying the effects of the first `k` steps of the plan from `s` (whether
/// or not their preconditions hold).
pub open spec fn state_after(ops: Seq<OperatorV>, s: Seq<bool>, plan: Seq<Op>, k: nat) -> Seq<bool>
    decreases k,
{
    if k == 0 {
        s
    } else {
        apply(state_after(ops, s, plan, (k - 1) as nat), ops[plan[k - 1].id as int].eff)
    }
}

/// The history `h` after a step from `before` to `after`: each variable whose value changed is
/// now due to operator `op` at step `num`.
pub open spec fn hist_step(h: Seq<Resume>, before: Seq<bool>, after: Seq<bool>, op: Op, num: i32) -> Seq<Resume> {
    Seq::new(before.len(), |v: int| if before[v] != after[v] {
        Resume::spec_new(Some(op), num)
    } else {
        h[v]
    })
}

/// For each variable, the record of the last of the first `k` steps that changed its value,
/// or the default record (step -1) if none did.
pub open spec fn history(ops: Seq<OperatorV>, s: Seq<bool>, plan: Seq<Op>, k: nat) -> Seq<Resume>
    decreases k,
{
    if k == 0 {
        Seq::new(s.len(), |v: int| Resume::spec_new(None, -1i32))
    } else {
        hist_step(
            history(ops, s, plan, (k - 1) as nat),
            state_after(ops, s, plan, (k - 1) as nat),
            state_after(ops, s, plan, k),
            plan[k - 1],
            (k - 1) as i32,
        )
    }
}

/// The states keep their number of variables, and each record of the history after `k` steps
/// is the default one or that of an earlier step, with its operator.
pub proof fn lemma_history(ops: Seq<OperatorV>, s: Seq<bool>, plan: Seq<Op>, k: nat)
    requires
        ops_wf(ops, s.len()),
        plan_in(ops, plan),
        k <= plan.len(),
        plan.len() <= i32::MAX,
    ensures
        state_after(ops, s, plan, k).len() == s.len(),
        history(ops, s, plan, k).len() == s.len(),
        forall|v: int| 0 <= v < s.len() ==> {
            let r = #[trigger] history(ops, s, plan, k)[v];
            ||| r == Resume::spec_new(None, -1i32)
            ||| (0 <= r.spec_numero() < k && r == Resume::spec_new(Some(plan[r.spec_numero() as int]), r.spec_numero()))
        },
    decreases k,
{
    Resume::lemma_spec_new(None, -1i32);
    if k > 0 {
        lemma_history(ops, s, plan, (k - 1) as nat);
        let prev = state_after(ops, s, plan, (k - 1) as nat);
        assert(plan[k - 1].id < ops.len());
        lemma_apply_len(prev, ops[plan[k - 1].id as int].eff);
        Resume::lemma_spec_new(Some(plan[k - 1]), (k - 1) as i32);
        assert forall|v: int| 0 <= v < s.len() implies {
            let r = #[trigger] history(ops, s, plan, k)[v];
            ||| r == Resume::spec_new(None, -1i32)
            ||| (0 <= r.spec_numero() < k && r == Resume::spec_new(Some(plan[r.spec_numero() as int]), r.spec_numero()))
        } by {
            let r0 = history(ops, s, plan, (k - 1) as nat)[v];
            Resume::lemma_spec_new(r0.spec_op(), r0.spec_numero());
        }
    }
}

/// The history after `k` steps names, for each variable `v`, the last of those steps after which
/// the value of `v` differs from its value before it (in either direction: made true or made
/// false), and is the default record when none of them changed `v`.
pub proof fn law_history_last_change(ops: Seq<OperatorV>, s: Seq<bool>, plan: Seq<Op>, k: nat, v: int)
    requires
        ops_wf(ops, s.len()),
        plan_in(ops, plan),
        k <= plan.len(),
        plan.len() <= i32::MAX,
        0 <= v < s.len(),
    ensures
        forall|i: int| #[trigger] last_change_before(ops, s, plan, i, v, k as int) ==> history(ops, s, plan, k)[v] == Resume::spec_new(
            Some(plan[i]),
            i as i32,
        ),
        (forall|t: int| 0 <= t < k ==> !#[trigger] changed_at(ops, s, plan, t, v)) ==> history(ops, s, plan, k)[v] == Resume::spec_new(
            None,
            -1i32,
        ),
    decreases k,
{
    if k > 0 {
        law_history_last_change(ops, s, plan, (k - 1) as nat, v);
        lemma_history(ops, s, plan, (k - 1) as nat);
        let before = state_after(ops, s, plan, (k - 1) as nat);
        let after = state_after(ops, s, plan, k);
        let km1 = k - 1;
        assert(((km1 + 1) as nat) == k);
        assert(history(ops, s, plan, k)[v] == if before[v] != after[v] {
            Resume::spec_new(Some(plan[k - 1]), (k - 1) as i32)
        } else {
            history(ops, s, plan, (k - 1) as nat)[v]
        });
        assert(changed_at(ops, s, plan, km1, v) == (before[v] != after[v]));
        assert forall|i: int| #[trigger] last_change_before(ops, s, plan, i, v, k as int) implies history(ops, s, plan, k)[v]
            == Resume::spec_new(Some(plan[i]), i as i32) by {
            if i < k - 1 {
                assert(!changed_at(ops, s, plan, km1, v));
                assert(last_change_before(ops, s, plan, i, v, km1));
            }
        }
        if forall|t: int| 0 <= t < k ==> !#[trigger] changed_at(ops, s, plan, t, v) {
            assert(!changed_at(ops, s, plan, km1, v));
        }
    }
}

/// Some literal of `lits` about `v` makes `count_var` positive and puts `v` among the variables
/// that `vars_used` lists.
proof fn lemma_vars_used_has(lits: Seq<Lit>, n: nat, v: int, p: int)
    requires
        0 <= v < n,
        0 <= p < lits.len(),
        lits[p].var.id == v,
    ensures
        vars_used(lits, n).contains(v),
    decreases n,
{
    lemma_count_var_pos(lits, v, p);
    let a = vars_used(lits, (n - 1) as nat);
    let b = Seq::new(count_var(lits, n - 1), |i: int| n - 1);
    assert(vars_used(lits, n) == a + b);
    if v == n - 1 {
        assert((a + b)[a.len() as int] == v);
    } else {
        lemma_vars_used_has(lits, (n - 1) as nat, v, p);
        let i = choose|i: int| 0 <= i < a.len() && a[i] == v;
        assert((a + b)[i] == v);
    }
}

proof fn lemma_count_var_pos(lits: Seq<Lit>, v: int, p: int)
    requires
        0 <= p < lits.len(),
        lits[p].var.id == v,
    ensures
        count_var(lits, v) > 0,
    decreases lits.len(),
{
    if p < lits.len() - 1 {
        assert(lits.drop_last()[p] == lits[p]);
        lemma_count_var_pos(lits.drop_last(), v, p);
    }
}

/// A step whose preconditions speak of a variable `v` is supported by the last earlier step that
/// changed the value of `v`, whether that step made it true or false.
pub proof fn law_supported_by_last_change(ops: Seq<OperatorV>, s: Seq<bool>, plan: Seq<Op>, j: int, v: int, i: int)
    requires
        ops_wf(ops, s.len()),
        plan_in(ops, plan),
        plan.len() <= i32::MAX,
        0 <= j < plan.len(),
        0 <= v < s.len(),
        about_var(ops[plan[j].id as int].pre, v),
        last_change_before(ops, s, plan, i, v, j),
    ensures
        supports_of(ops, s, plan, j).contains(Resume::spec_new(Some(plan[i]), i as i32)),
{
    let pre = ops[plan[j].id as int].pre;
    let p = choose|p: int| 0 <= p < pre.len() && (#[trigger] pre[p]).var.id == v;
    lemma_vars_used_has(pre, s.len(), v, p);
    let vs = vars_used(pre, s.len());
    let x = choose|x: int| 0 <= x < vs.len() && vs[x] == v;
    law_history_last_change(ops, s, plan, j as nat, v);
    assert(supports_of(ops, s, plan, j)[x] == history(ops, s, plan, j as nat)[v]);
}

/// A step whose preconditions speak of a variable `v` that no earlier step changed is supported
/// by the initial state: among its supports is the default record.
pub proof fn law_supported_by_initial_state(ops: Seq<OperatorV>, s: Seq<bool>, plan: Seq<Op>, j: int, v: int)
    requires
        ops_wf(ops, s.len()),
        plan_in(ops, plan),
        plan.len() <= i32::MAX,
        0 <= j < plan.len(),
        0 <= v < s.len(),
        about_var(ops[plan[j].id as int].pre, v),
        forall|t: int| 0 <= t < j ==> !#[trigger] changed_at(ops, s, plan, t, v),
    ensures
        supports_of(ops, s, plan, j).contains(Resume::spec_new(None, -1i32)),
{
    let pre = ops[plan[j].id as int].pre;
    let p = choose|p: int| 0 <= p < pre.len() && (#[trigger] pre[p]).var.id == v;
    lemma_vars_used_has(pre, s.len(), v, p);
    let vs = vars_used(pre, s.len());
    let x = choose|x: int| 0 <= x < vs.len() && vs[x] == v;
    law_history_last_change(ops, s, plan, j as nat, v);
    assert(supports_of(ops, s, plan, j)[x] == history(ops, s, plan, j as nat)[v]);
}

/// Adding a literal to `lits` adds one variable to those that `vars_used` lists below `n` when
/// the literal is about one of them.
proof fn lemma_vars_used_push(lits: Seq<Lit>, l: Lit, n: nat)
    ensures
        vars_used(lits.push(l), n).len() == vars_used(lits, n).len() + if l.var.id < n {
            1int
        } else {
            0int
        },
    decreases n,
{
    let p = lits.push(l);
    assert(p.drop_last() =~= lits);
    if n > 0 {
        lemma_vars_used_push(lits, l, (n - 1) as nat);
        assert(count_var(p, n - 1) == count_var(lits, n - 1) + if l.var.id == n - 1 {
            1nat
        } else {
            0nat
        });
    }
}

proof fn lemma_vars_used_len(lits: Seq<Lit>, n: nat)
    requires
        lits_in(lits, n),
    ensures
        vars_used(lits, n).len() == lits.len(),
    decreases lits.len(),
{
    if lits.len() == 0 {
        assert(lits =~= Seq::<Lit>::empty());
        lemma_vars_used_zero(n);
    } else {
        let d = lits.drop_last();
        assert(lits_in(d, n)) by {
            assert forall|i: int| 0 <= i < d.len() implies (#[trigger] d[i]).var.id < n by {
                assert(d[i] == lits[i]);
            }
        }
        lemma_vars_used_len(d, n);
        assert(d.push(lits.last()) =~= lits);
        assert(lits.last() == lits[lits.len() - 1]);
        assert(lits[lits.len() - 1].var.id < n);
        lemma_vars_used_push(d, lits.last(), n);
    }
}

proof fn lemma_vars_used_zero(n: nat)
    ensures
        vars_used(Seq::<Lit>::empty(), n).len() == 0,
    decreases n,
{
    if n > 0 {
        lemma_vars_used_zero((n - 1) as nat);
    }
}

/// Each precondition of a step, and each goal, is supported by one record: step `j` has as
/// many supports as preconditions, and the goals as many as there are goals.
pub proof fn law_one_support_per_precondition(ops: Seq<OperatorV>, s: Seq<bool>, plan: Seq<Op>, goals: Seq<Lit>, j: int)
    requires
        ops_wf(ops, s.len()),
        plan_in(ops, plan),
        lits_in(goals, s.len()),
    ensures
        0 <= j < plan.len() ==> supports_of(ops, s, plan, j).len() == ops[plan[j].id as int].pre.len(),
        goal_supports(ops, s, plan, goals).len() == goals.len(),
{
    if 0 <= j < plan.len() {
        assert(plan[j].id < ops.len());
        lemma_vars_used_len(ops[plan[j].id as int].pre, s.len());
    }
    lemma_vars_used_len(goals, s.len());
}

/// The state after applying the effects of `op` to `initial_state`.
pub fn step(initial_state: &State, op: &Op, ops: &Operators) -> (res: State)
    requires
        op.id < ops@.len(),
        lits_in(ops@[op.id as int].eff, initial_state@.len()),
    ensures
        res@ == apply(initial_state@, ops@[op.id as int].eff),
        res@.len() == initial_state@.len(),
{
    let mut suivant = initial_state.copy();
    let effect = ops.effects(*op);
    suivant.set_all(effect);
    suivant
}

/// The state after applying `op` (step `numstep` of a plan) to `initial_state`, with the history
/// `histo` updated: each variable whose value changed is now due to this step.
pub fn h_step(initial_state: &State, op: &Op, ops: &Operators, numstep: i32, histo: Vec<Resume>) -> (res: (State, Vec<Resume>))
    requires
        op.id < ops@.len(),
        lits_in(ops@[op.id as int].eff, initial_state@.len()),
        histo@.len() >= initial_state@.len(),
    ensures
        res.0@ == apply(initial_state@, ops@[op.id as int].eff),
        res.1@ == hist_step(histo@.subrange(0, initial_state@.len() as int), initial_state@, res.0@, *op, numstep),
{
    let etat = step(initial_state, op, ops);
    let mut newhisto: Vec<Resume> = Vec::new();
    let n = initial_state.size();
    let mut v: usize = 0;
    while v < n
        invariant
            v <= n,
            n == initial_state@.len(),
            etat@.len() == n,
            histo@.len() >= n,
            newhisto@ == hist_step(histo@.subrange(0, n as int), initial_state@, etat@, *op, numstep).subrange(0, v as int),
        decreases n - v,
    {
        let sv = SVId { id: v };
        if initial_state.is_set(sv) != etat.is_set(sv) {
            newhisto.push(newresume(*op, numstep));
        } else {
            newhisto.push(histo[v]);
        }
        proof {
            let h = hist_step(histo@.subrange(0, n as int), initial_state@, etat@, *op, numstep);
            assert(newhisto@ =~= h.subrange(0, v + 1));
        }
        v = v + 1;
    }
    proof {
        let h = hist_step(histo@.subrange(0, n as int), initial_state@, etat@, *op, numstep);
        assert(h.subrange(0, n as int) =~= h);
    }
    (etat, newhisto)
}

/// Number of the literals of `lits` about the variable `v`.
pub open spec fn count_var(lits: Seq<Lit>, v: int) -> nat
    decreases lits.len(),
{
    if lits.len() == 0 {
        0
    } else {
        count_var(lits.drop_last(), v) + if lits.last().var.id == v {
            1nat
        } else {
            0nat
        }
    }
}

/// The variables below `n` that `lits` speak of, in increasing order, each as many times as
/// literals speak of it.
pub open spec fn vars_used(lits: Seq<Lit>, n: nat) -> Seq<int>
    decreases n,
{
    if n == 0 {
        seq![]
    } else {
        vars_used(lits, (n - 1) as nat) + Seq::new(count_var(lits, n - 1), |i: int| n - 1)
    }
}

/// The variables that `vars_used` lists are below `n`.
pub proof fn lemma_vars_used(lits: Seq<Lit>, n: nat)
    ensures
        forall|i: int| 0 <= i < vars_used(lits, n).len() ==> 0 <= #[trigger] vars_used(lits, n)[i] < n,
    decreases n,
{
    if n > 0 {
        lemma_vars_used(lits, (n - 1) as nat);
        let a = vars_used(lits, (n - 1) as nat);
        let b = Seq::new(count_var(lits, n - 1), |i: int| n - 1);
        assert forall|i: int| 0 <= i < vars_used(lits, n).len() implies 0 <= #[trigger] vars_used(lits, n)[i] < n by {
            if i < a.len() {
                assert(vars_used(lits, n)[i] == a[i]);
            } else {
                assert(vars_used(lits, n)[i] == b[i - a.len()]);
            }
        }
    }
}

/// Appends to `vecvar` the variable `v` once per literal of `lits` about it.
fn push_uses(lits: &[Lit], v: usize, vecvar: &mut Vec<usize>)
    ensures
        final(vecvar)@.map_values(|x: usize| x as int) == old(vecvar)@.map_values(|x: usize| x as int) + Seq::new(
            count_var(lits@, v as int),
            |i: int| v as int,
        ),
{
    let ghost v0 = vecvar@.map_values(|x: usize| x as int);
    let mut j: usize = 0;
    while j < lits.len()
        invariant
            j <= lits@.len(),
            vecvar@.map_values(|x: usize| x as int) == v0 + Seq::new(count_var(lits@.subrange(0, j as int), v as int), |i: int| v as int),
        decreases lits@.len() - j,
    {
        let ghost before = vecvar@;
        proof {
            assert(lits@.subrange(0, j + 1).drop_last() =~= lits@.subrange(0, j as int));
        }
        if lits[j].var.id == v {
            vecvar.push(v);
            proof {
                let c = count_var(lits@.subrange(0, j as int), v as int);
                assert(count_var(lits@.subrange(0, j + 1), v as int) == c + 1);
                assert(vecvar@.map_values(|x: usize| x as int) =~= before.map_values(|x: usize| x as int).push(v as int));
                assert(Seq::new(c + 1, |i: int| v as int) =~= Seq::new(c, |i: int| v as int).push(v as int));
                assert(vecvar@.map_values(|x: usize| x as int) =~= v0 + Seq::new(count_var(lits@.subrange(0, j + 1), v as int), |i: int| v as int));
            }
        }
        j = j + 1;
    }
    assert(lits@.subrange(0, j as int) =~= lits@);
}

/// The variables below `n` that `lits` speak of, as `vars_used` lists them.
fn used_vars(lits: &[Lit], n: usize) -> (res: Vec<usize>)
    ensures
        res@.map_values(|x: usize| x as int) == vars_used(lits@, n as nat),
{
    let mut vecvar: Vec<usize> = Vec::new();
    let mut v: usize = 0;
    assert(vecvar@.map_values(|x: usize| x as int) =~= vars_used(lits@, 0));
    while v < n
        invariant
            v <= n,
            vecvar@.map_values(|x: usize| x as int) == vars_used(lits@, v as nat),
        decreases n - v,
    {
        push_uses(lits, v, &mut vecvar);
        v = v + 1;
    }
    vecvar
}

/// For each variable used by `lits` (as `vars_used` lists them), its record in `histo`.
pub(crate) fn linked(lits: &[Lit], n: usize, histo: &Vec<Resume>) -> (res: Vec<Resume>)
    requires
        histo@.len() >= n,
    ensures
        res@ == vars_used(lits@, n as nat).map_values(|v: int| histo@[v]),
{
    let vecvar = used_vars(lits, n);
    proof {
        lemma_vars_used(lits@, n as nat);
    }
    let ghost vs = vars_used(lits@, n as nat);
    let mut link: Vec<Resume> = Vec::new();
    let mut k: usize = 0;
    while k < vecvar.len()
        invariant
            k <= vecvar@.len(),
            histo@.len() >= n,
            vs == vars_used(lits@, n as nat),
            vecvar@.map_values(|x: usize| x as int) == vs,
            forall|i: int| 0 <= i < vs.len() ==> 0 <= #[trigger] vs[i] < n,
            link@ == vs.subrange(0, k as int).map_values(|v: int| histo@[v]),
        decreases vecvar@.len() - k,
    {
        assert(vs[k as int] == vecvar@[k as int] as int);
        link.push(histo[vecvar[k]]);
        assert(link@ =~= vs.subrange(0, k + 1).map_values(|v: int| histo@[v]));
        k = k + 1;
    }
    assert(vs.subrange(0, k as int) =~= vs);
    link
}

/// The history and state after running the first `k` steps of the plan.
fn run_history(plan: &Vec<Op>, k: usize, initial_state: &State, ops: &Operators) -> (res: (State, Vec<Resume>))
    requires
        k <= plan@.len(),
        plan@.len() <= i32::MAX,
        ops_wf(ops@, initial_state@.len()),
        plan_in(ops@, plan@),
    ensures
        res.0@ == state_after(ops@, initial_state@, plan@, k as nat),
        res.1@ == history(ops@, initial_state@, plan@, k as nat),
{
    let ghost s = initial_state@;
    let mut etat = initial_state.copy();
    let mut histo: Vec<Resume> = Vec::new();
    let n = initial_state.size();
    let mut v: usize = 0;
    while v < n
        invariant
            v <= n,
            n == s.len(),
            histo@ == Seq::new(v as nat, |i: int| Resume::spec_new(None, -1i32)),
        decreases n - v,
    {
        histo.push(defaultresume());
        assert(histo@ =~= Seq::new((v + 1) as nat, |i: int| Resume::spec_new(None, -1i32)));
        v = v + 1;
    }
    let mut count: usize = 0;
    while count < k
        invariant
            count <= k <= plan@.len() <= i32::MAX,
            s == initial_state@,
            ops_wf(ops@, s.len()),
            plan_in(ops@, plan@),
            etat@ == state_after(ops@, s, plan@, count as nat),
            histo@ == history(ops@, s, plan@, count as nat),
        decreases k - count,
    {
        proof {
            lemma_history(ops@, s, plan@, count as nat);
            assert(plan@[count as int].id < ops@.len());
        }
        let opt = plan[count];
        let (e, h) = h_step(&etat, &opt, ops, count as i32, histo);
        proof {
            assert(h@.len() == etat@.len());
            assert(history(ops@, s, plan@, count as nat).subrange(0, s.len() as int) =~= history(ops@, s, plan@, count as nat));
        }
        etat = e;
        histo = h;
        count = count + 1;
    }
    (etat, histo)
}

/// The records of the steps that support step `j` of the plan: for each variable of its
/// preconditions (in increasing order, once per precondition on it), the record of the last
/// earlier step that changed that variable, or the default record if none did.
pub open spec fn supports_of(ops: Seq<OperatorV>, s: Seq<bool>, plan: Seq<Op>, j: int) -> Seq<Resume> {
    vars_used(ops[plan[j].id as int].pre, s.len()).map_values(|v: int| history(ops, s, plan, j as nat)[v])
}

/// The records of the steps that support the goals: for each variable of the goals (in
/// increasing order, once per goal on it), the record of the last step of the plan that changed
/// that variable, or the default record if none did.
pub open spec fn goal_supports(ops: Seq<OperatorV>, s: Seq<bool>, plan: Seq<Op>, goals: Seq<Lit>) -> Seq<Resume> {
    vars_used(goals, s.len()).map_values(|v: int| history(ops, s, plan, plan.len())[v])
}

/// The records of the steps that support step `etape` of the plan.
pub(crate) fn supports_at(etape: usize, plan: &Vec<Op>, initial_state: &State, ops: &Operators) -> (res: Vec<Resume>)
    requires
        etape < plan@.len(),
        plan@.len() <= i32::MAX,
        ops_wf(ops@, initial_state@.len()),
        plan_in(ops@, plan@),
    ensures
        res@ == supports_of(ops@, initial_state@, plan@, etape as int),
{
    let op = plan[etape];
    let (etat, histo) = run_history(plan, etape, initial_state, ops);
    proof {
        lemma_history(ops@, initial_state@, plan@, etape as nat);
        assert(plan@[etape as int].id < ops@.len());
    }
    let precond = ops.preconditions(op);
    linked(precond, etat.size(), &histo)
}

/// The records of the steps that support step `etape` of the plan: for each variable of its
/// preconditions (in increasing order, once per precondition on it), the record of the last
/// earlier step that changed that variable, or the default record if none did.
pub fn causalite(etape: i32, plan: Vec<Op>, initial_state: &State, ops: &Operators) -> (res: Vec<Resume>)
    requires
        0 <= etape < plan@.len(),
        plan@.len() <= i32::MAX,
        ops_wf(ops@, initial_state@.len()),
        plan_in(ops@, plan@),
    ensures
        res@ == supports_of(ops@, initial_state@, plan@, etape as int),
{
    supports_at(etape as usize, &plan, initial_state, ops)
}

/// The records of the steps that support the goals: for each variable of the goals (in
/// increasing order, once per goal on it), the record of the last step of the plan that changed
/// that variable, or the default record if none did.
pub fn causalitegoals(plan: Vec<Op>, initial_state: &State, ops: &Operators, goals: &Vec<Lit>) -> (res: Vec<Resume>)
    requires
        plan@.len() <= i32::MAX,
        ops_wf(ops@, initial_state@.len()),
        plan_in(ops@, plan@),
    ensures
        res@ == goal_supports(ops@, initial_state@, plan@, goals@),
{
    goal_supports_of(&plan, initial_state, ops, goals)
}

/// The records of the steps that support the goals.
pub(crate) fn goal_supports_of(plan: &Vec<Op>, initial_state: &State, ops: &Operators, goals: &Vec<Lit>) -> (res: Vec<Resume>)
    requires
        plan@.len() <= i32::MAX,
        ops_wf(ops@, initial_state@.len()),
        plan_in(ops@, plan@),
    ensures
        res@ == goal_supports(ops@, initial_state@, plan@, goals@),
{
    let (etat, histo) = run_history(plan, plan.len(), initial_state, ops);
    proof {
        lemma_history(ops@, initial_state@, plan@, plan@.len());
    }
    linked(goals.as_slice(), etat.size(), &histo)
}


/// Whether one of the records `rs` is about step `num`.
pub open spec fn has_step(rs: Seq<Resume>, num: int) -> bool {
    exists|t: int| 0 <= t < rs.len() && #[trigger] rs[t].spec_numero() == num
}

/// Whether one of the first `k` records of `rs` is about step `num`.
pub open spec fn has_step_before(rs: Seq<Resume>, num: int, k: int) -> bool {
    exists|t: int| 0 <= t < k && #[trigger] rs[t].spec_numero() == num
}

/// The entry at row `i` and column `j` of the support matrix of a plan of `n` steps: 1 where
/// step `i` supports step `j` (column `n` for the goals, row `n + 1` for the initial state).
pub open spec fn support_entry(ops: Seq<OperatorV>, s: Seq<bool>, plan: Seq<Op>, goals: Seq<Lit>, i: int, j: int) -> i32 {
    let n = plan.len() as int;
    if (j == n && 0 <= i < n && has_step(goal_supports(ops, s, plan, goals), i)) || (0 <= j < n && ((0 <= i < n
        && has_step(supports_of(ops, s, plan, j), i)) || (i == n + 1 && has_step(supports_of(ops, s, plan, j), -1)))) {
        1
    } else {
        0
    }
}

/// The `size` by `size` matrix of the entries `support_entry`.
pub open spec fn support_seq(ops: Seq<OperatorV>, s: Seq<bool>, plan: Seq<Op>, goals: Seq<Lit>, size: int) -> Seq<Seq<i32>> {
    Seq::new(size as nat, |i: int| Seq::new(size as nat, |j: int| support_entry(ops, s, plan, goals, i, j)))
}

/// The support matrix of the plan, of size `n + 2` (with the row of the initial state) or
/// `n + 1` (without it) for `n` steps.
#[verifier::rlimit(30)]
fn build_support(plan: &Vec<Op>, ground: &GroundProblem, with_init: bool) -> (res: IntMatrix)
    requires
        plan@.len() < i32::MAX,
        ops_wf(ground.operators@, ground.initial_state@.len()),
        plan_in(ground.operators@, plan@),
    ensures
        res.wf(),
        res@ == support_seq(
            ground.operators@,
            ground.initial_state@,
            plan@,
            ground.goals@,
            plan@.len() + if with_init {
                2int
            } else {
                1int
            },
        ),
        res.spec_ncols() == res@.len(),
{
    let init = &ground.initial_state;
    let ops = &ground.operators;
    let goals = &ground.goals;
    let ghost (o, s, p, g) = (ops@, init@, plan@, goals@);
    let length = plan.len();
    let size = if with_init {
        length + 2
    } else {
        length + 1
    };
    let mut matrice = IntMatrix::from_diagonal_element(size, size, 0);
    let cause = goal_supports_of(plan, init, ops, goals);
    proof {
        lemma_history(o, s, p, p.len());
        lemma_vars_used(g, s.len());
        Resume::lemma_spec_new(None, -1i32);
        assert forall|r: int| 0 <= r < cause@.len() implies -1 <= (#[trigger] cause@[r]).spec_numero() < length by {
            let v = vars_used(g, s.len())[r];
            assert(cause@[r] == history(o, s, p, p.len())[v]);
        }
    }
    let mut t: usize = 0;
    while t < cause.len()
        invariant
            t <= cause@.len(),
            (o, s, p, g) == (ops@, init@, plan@, goals@),
            length == p.len() <= i32::MAX,
            cause@ == goal_supports(o, s, p, g),
            forall|r: int| 0 <= r < cause@.len() ==> -1 <= (#[trigger] cause@[r]).spec_numero() < length,
            matrice.wf(),
            matrice@.len() == size,
            size == length + if with_init {
                2int
            } else {
                1int
            },
            matrice.spec_ncols() == size,
            forall|i: int, j: int| 0 <= i < size && 0 <= j < size ==> #[trigger] matrice.at(i, j) == if j
                == length && 0 <= i && has_step_before(cause@, i, t as int) {
                1i32
            } else {
                0i32
            },
        decreases cause@.len() - t,
    {
        let r = cause[t].numero();
        let ghost m0 = matrice;
        if r >= 0 {
            matrice.set(r as usize, length, 1);
        }
        proof {
            assert forall|i: int, j: int| 0 <= i < size && 0 <= j < size implies #[trigger] matrice.at(i, j) == if j
                == length && 0 <= i && has_step_before(cause@, i, t + 1) {
                1i32
            } else {
                0i32
            } by {
                assert(m0.at(i, j) == if j == length && 0 <= i && has_step_before(cause@, i, t as int) {
                    1i32
                } else {
                    0i32
                });
                if j == length && 0 <= i && i == r {
                    assert(cause@[t as int].spec_numero() == i);
                }
                if has_step_before(cause@, i, t + 1) && !has_step_before(cause@, i, t as int) {
                    assert(cause@[t as int].spec_numero() == i);
                }
                if has_step_before(cause@, i, t as int) {
                    let w = choose|w: int| 0 <= w < t && #[trigger] cause@[w].spec_numero() == i;
                    assert(0 <= w < t + 1 && cause@[w].spec_numero() == i);
                }
            }
        }
        t = t + 1;
    }
    assert forall|i: int| #[trigger] has_step_before(cause@, i, t as int) <==> has_step(goal_supports(o, s, p, g), i) by {}
    let mut c: usize = 0;
    while c < length
        invariant
            c <= length,
            (o, s, p, g) == (ops@, init@, plan@, goals@),
            length == p.len() <= i32::MAX,
            ops_wf(o, s.len()),
            plan_in(o, p),
            matrice.wf(),
            matrice@.len() == size,
            size == length + if with_init {
                2int
            } else {
                1int
            },
            matrice.spec_ncols() == size,
            forall|i: int, j: int| 0 <= i < size && 0 <= j < size ==> #[trigger] matrice.at(i, j) == if (j
                == length && 0 <= i < length && has_step(goal_supports(o, s, p, g), i)) || (0 <= j < c && ((0 <= i < length
                && has_step(supports_of(o, s, p, j), i)) || (i == length + 1 && has_step(supports_of(o, s, p, j), -1)))) {
                1i32
            } else {
                0i32
            },
        decreases length - c,
    {
        let cause = supports_at(c, plan, init, ops);
        proof {
            lemma_history(o, s, p, c as nat);
            lemma_vars_used(o[p[c as int].id as int].pre, s.len());
            assert(p[c as int].id < o.len());
            Resume::lemma_spec_new(None, -1i32);
            assert forall|r: int| 0 <= r < cause@.len() implies -1 <= (#[trigger] cause@[r]).spec_numero() < c by {
                let v = vars_used(o[p[c as int].id as int].pre, s.len())[r];
                assert(cause@[r] == history(o, s, p, c as nat)[v]);
            }
        }
        let ghost sup = supports_of(o, s, p, c as int);
        let mut t: usize = 0;
        while t < cause.len()
            invariant
                t <= cause@.len(),
                c < length == p.len() <= i32::MAX,
                cause@ == sup,
                forall|r: int| 0 <= r < cause@.len() ==> -1 <= (#[trigger] cause@[r]).spec_numero() < c,
                matrice.wf(),
                matrice@.len() == size,
            size == length + if with_init {
                2int
            } else {
                1int
            },
                matrice.spec_ncols() == size,
                forall|i: int, j: int| 0 <= i < size && 0 <= j < size ==> #[trigger] matrice.at(i, j) == if (j
                    == length && 0 <= i < length && has_step(goal_supports(o, s, p, g), i)) || (0 <= j < c && ((0 <= i < length
                    && has_step(supports_of(o, s, p, j), i)) || (i == length + 1 && has_step(supports_of(o, s, p, j), -1))))
                    || (j == c && ((0 <= i < length && has_step_before(sup, i, t as int)) || (i == length + 1
                    && has_step_before(sup, -1, t as int)))) {
                    1i32
                } else {
                    0i32
                },
            decreases cause@.len() - t,
        {
            let r = cause[t].numero();
            let ghost m0 = matrice;
            if r >= 0 {
                matrice.set(r as usize, c, 1);
            } else if r == -1 && with_init {
                matrice.set(length + 1, c, 1);
            }
            proof {
                assert forall|i: int, j: int| 0 <= i < size && 0 <= j < size implies #[trigger] matrice.at(i, j)
                    == if (j == length && 0 <= i < length && has_step(goal_supports(o, s, p, g), i)) || (0 <= j < c && ((0
                    <= i < length && has_step(supports_of(o, s, p, j), i)) || (i == length + 1 && has_step(
                    supports_of(o, s, p, j),
                    -1,
                )))) || (j == c && ((0 <= i < length && has_step_before(sup, i, t + 1)) || (i == length + 1
                    && has_step_before(sup, -1, t + 1)))) {
                    1i32
                } else {
                    0i32
                } by {
                    assert(m0.at(i, j) == if (j == length && 0 <= i < length && has_step(goal_supports(o, s, p, g), i)) || (0
                        <= j < c && ((0 <= i < length && has_step(supports_of(o, s, p, j), i)) || (i == length + 1
                        && has_step(supports_of(o, s, p, j), -1)))) || (j == c && ((0 <= i < length && has_step_before(
                        sup,
                        i,
                        t as int,
                    )) || (i == length + 1 && has_step_before(sup, -1, t as int)))) {
                        1i32
                    } else {
                        0i32
                    });
                    if j == c && i < length && i == r {
                        assert(sup[t as int].spec_numero() == i);
                    }
                    if j == c && i == length + 1 && r == -1 {
                        assert(sup[t as int].spec_numero() == -1);
                    }
                    if has_step_before(sup, i, t as int) {
                        let w = choose|w: int| 0 <= w < t && #[trigger] sup[w].spec_numero() == i;
                        assert(0 <= w < t + 1 && sup[w].spec_numero() == i);
                    }
                    if has_step_before(sup, -1, t as int) {
                        let w = choose|w: int| 0 <= w < t && #[trigger] sup[w].spec_numero() == -1;
                        assert(0 <= w < t + 1 && sup[w].spec_numero() == -1);
                    }
                    if has_step_before(sup, i, t + 1) && !has_step_before(sup, i, t as int) {
                        assert(sup[t as int].spec_numero() == i);
                    }
                    if has_step_before(sup, -1, t + 1) && !has_step_before(sup, -1, t as int) {
                        assert(sup[t as int].spec_numero() == -1);
                    }
                }
            }
            t = t + 1;
        }
        proof {
            assert forall|i: int| #[trigger] has_step_before(sup, i, t as int) <==> has_step(sup, i) by {}
        }
        c = c + 1;
    }
    proof {
        let sq = support_seq(o, s, p, g, size as int);
        assert forall|i: int| 0 <= i < size implies (#[trigger] matrice@[i]) =~= sq[i] by {
            assert forall|j: int| 0 <= j < size implies matrice@[i][j] == sq[i][j] by {
                assert(matrice.at(i, j) == support_entry(o, s, p, g, i, j));
            }
        }
        assert(matrice@ =~= sq);
    }
    matrice
}

/// Whether step `t` of the plan changes the value of the variable `v`: its value after the
/// step (effects applied as `state_after` does) differs from its value before.
pub open spec fn changed_at(ops: Seq<OperatorV>, s: Seq<bool>, plan: Seq<Op>, t: int, v: int) -> bool {
    state_after(ops, s, plan, t as nat)[v] != state_after(ops, s, plan, (t + 1) as nat)[v]
}

/// Whether step `i` is the last step before step `k` that changes the value of `v`.
pub open spec fn last_change_before(ops: Seq<OperatorV>, s: Seq<bool>, plan: Seq<Op>, i: int, v: int, k: int) -> bool {
    &&& 0 <= i < k
    &&& changed_at(ops, s, plan, i, v)
    &&& forall|t: int| i < t < k ==> !#[trigger] changed_at(ops, s, plan, t, v)
}

/// Whether some literal of `lits` is about the variable `v`.
pub open spec fn about_var(lits: Seq<Lit>, v: int) -> bool {
    exists|p: int| 0 <= p < lits.len() && (#[trigger] lits[p]).var.id == v
}

/// When some step before `k` changes `v`, one of them is the last.
proof fn lemma_last_change_exists(ops: Seq<OperatorV>, s: Seq<bool>, plan: Seq<Op>, v: int, k: int, t0: int)
    requires
        0 <= t0 < k,
        changed_at(ops, s, plan, t0, v),
    ensures
        exists|i: int| #[trigger] last_change_before(ops, s, plan, i, v, k),
    decreases k,
{
    if changed_at(ops, s, plan, k - 1, v) {
        assert(last_change_before(ops, s, plan, k - 1, v, k));
    } else {
        lemma_last_change_exists(ops, s, plan, v, k - 1, t0);
        let i = choose|i: int| #[trigger] last_change_before(ops, s, plan, i, v, k - 1);
        assert(last_change_before(ops, s, plan, i, v, k));
    }
}

proof fn lemma_count_var_about(lits: Seq<Lit>, v: int)
    requires
        count_var(lits, v) > 0,
    ensures
        about_var(lits, v),
    decreases lits.len(),
{
    if lits.last().var.id == v {
        assert(lits[lits.len() - 1] == lits.last());
    } else {
        lemma_count_var_about(lits.drop_last(), v);
        let p = choose|p: int| 0 <= p < lits.drop_last().len() && (#[trigger] lits.drop_last()[p]).var.id == v;
        assert(lits[p] == lits.drop_last()[p]);
    }
}

/// Each variable that `vars_used` lists is that of a literal of `lits`.
proof fn lemma_vars_used_about(lits: Seq<Lit>, n: nat, t: int)
    requires
        0 <= t < vars_used(lits, n).len(),
    ensures
        about_var(lits, vars_used(lits, n)[t]),
    decreases n,
{
    let a = vars_used(lits, (n - 1) as nat);
    let b = Seq::new(count_var(lits, n - 1), |i: int| n - 1);
    assert(vars_used(lits, n) == a + b);
    if t < a.len() {
        lemma_vars_used_about(lits, (n - 1) as nat, t);
        assert(vars_used(lits, n)[t] == a[t]);
    } else {
        assert(vars_used(lits, n)[t] == b[t - a.len()]);
        lemma_count_var_about(lits, n - 1);
    }
}

/// The numbers of the records of the history after `k` steps: for `v`, that of the last step
/// before `k` that changed it, or -1 when none did.
proof fn lemma_history_numero(ops: Seq<OperatorV>, s: Seq<bool>, plan: Seq<Op>, k: nat, v: int)
    requires
        ops_wf(ops, s.len()),
        plan_in(ops, plan),
        k <= plan.len(),
        plan.len() <= i32::MAX,
        0 <= v < s.len(),
    ensures
        forall|i: int| #[trigger] last_change_before(ops, s, plan, i, v, k as int) ==> history(ops, s, plan, k)[v].spec_numero() == i,
        (forall|t: int| 0 <= t < k ==> !#[trigger] changed_at(ops, s, plan, t, v)) ==> history(ops, s, plan, k)[v].spec_numero() == -1,
        history(ops, s, plan, k)[v].spec_numero() == -1 <==> forall|t: int| 0 <= t < k ==> !#[trigger] changed_at(ops, s, plan, t, v),
{
    law_history_last_change(ops, s, plan, k, v);
    Resume::lemma_spec_new(None, -1i32);
    assert forall|i: int| #[trigger] last_change_before(ops, s, plan, i, v, k as int) implies history(ops, s, plan, k)[v].spec_numero()
        == i by {
        Resume::lemma_spec_new(Some(plan[i]), i as i32);
    }
    if !forall|t: int| 0 <= t < k ==> !#[trigger] changed_at(ops, s, plan, t, v) {
        let t0 = choose|t: int| 0 <= t < k && #[trigger] changed_at(ops, s, plan, t, v);
        lemma_last_change_exists(ops, s, plan, v, k as int, t0);
        let i = choose|i: int| #[trigger] last_change_before(ops, s, plan, i, v, k as int);
        assert(history(ops, s, plan, k)[v].spec_numero() == i);
    }
}

/// In the support matrix of a plan of `n` steps, the entry at row `i` and column `j` (two steps
/// of the plan) is 1 exactly when, for some variable of a precondition of step `j`, step `i` is
/// the last step before `j` that changed its value (made it true or false); the entry at row
/// `n + 1` (the initial state) is 1 exactly when some variable of a precondition of step `j` is
/// changed by no step before `j`.
pub proof fn law_support_matrix_last_change(ops: Seq<OperatorV>, s: Seq<bool>, plan: Seq<Op>, goals: Seq<Lit>, i: int, j: int)
    requires
        ops_wf(ops, s.len()),
        plan_in(ops, plan),
        plan.len() < i32::MAX,
        0 <= j < plan.len(),
    ensures
        0 <= i < plan.len() ==> (support_seq(ops, s, plan, goals, plan.len() + 2int)[i][j] == 1 <==> exists|v: int|
            0 <= v < s.len() && about_var(ops[plan[j].id as int].pre, v) && #[trigger] last_change_before(ops, s, plan, i, v, j)),
        support_seq(ops, s, plan, goals, plan.len() + 2int)[plan.len() + 1int][j] == 1 <==> exists|v: int|
            0 <= v < s.len() && #[trigger] about_var(ops[plan[j].id as int].pre, v) && forall|t: int|
                0 <= t < j ==> !#[trigger] changed_at(ops, s, plan, t, v),
{
    let n = plan.len() as int;
    let pre = ops[plan[j].id as int].pre;
    let sup = supports_of(ops, s, plan, j);
    let vs = vars_used(pre, s.len());
    lemma_vars_used(pre, s.len());
    assert(support_seq(ops, s, plan, goals, n + 2)[n + 1][j] == support_entry(ops, s, plan, goals, n + 1, j));
    // from a support to the variable behind it
    assert forall|t: int| 0 <= t < sup.len() implies {
        let v = vs[t];
        &&& 0 <= v < s.len()
        &&& about_var(pre, v)
        &&& #[trigger] sup[t].spec_numero() == history(ops, s, plan, j as nat)[v].spec_numero()
    } by {
        lemma_vars_used_about(pre, s.len(), t);
    }
    if 0 <= i < n {
        assert(support_seq(ops, s, plan, goals, n + 2)[i][j] == support_entry(ops, s, plan, goals, i, j));
        if has_step(sup, i) {
            let t = choose|t: int| 0 <= t < sup.len() && #[trigger] sup[t].spec_numero() == i;
            let v = vs[t];
            lemma_history_numero(ops, s, plan, j as nat, v);
            assert(!forall|t2: int| 0 <= t2 < j ==> !#[trigger] changed_at(ops, s, plan, t2, v));
            let t0 = choose|t2: int| 0 <= t2 < j && #[trigger] changed_at(ops, s, plan, t2, v);
            lemma_last_change_exists(ops, s, plan, v, j, t0);
            let i2 = choose|i2: int| #[trigger] last_change_before(ops, s, plan, i2, v, j);
            assert(i2 == i);
            assert(last_change_before(ops, s, plan, i, v, j));
        }
        if exists|v: int| 0 <= v < s.len() && about_var(pre, v) && #[trigger] last_change_before(ops, s, plan, i, v, j) {
            let v = choose|v: int| 0 <= v < s.len() && about_var(pre, v) && #[trigger] last_change_before(ops, s, plan, i, v, j);
            let p = choose|p: int| 0 <= p < pre.len() && (#[trigger] pre[p]).var.id == v;
            lemma_vars_used_has(pre, s.len(), v, p);
            let x = choose|x: int| 0 <= x < vs.len() && vs[x] == v;
            lemma_history_numero(ops, s, plan, j as nat, v);
            assert(sup[x].spec_numero() == i);
        }
    }
    if has_step(sup, -1) {
        let t = choose|t: int| 0 <= t < sup.len() && #[trigger] sup[t].spec_numero() == -1;
        let v = vs[t];
        lemma_history_numero(ops, s, plan, j as nat, v);
        assert(about_var(pre, v));
    }
    if exists|v: int| 0 <= v < s.len() && #[trigger] about_var(pre, v) && forall|t: int| 0 <= t < j ==> !#[trigger] changed_at(ops, s, plan, t, v) {
        let v = choose|v: int| 0 <= v < s.len() && #[trigger] about_var(pre, v) && forall|t: int| 0 <= t < j ==> !#[trigger] changed_at(ops, s, plan, t, v);
        let p = choose|p: int| 0 <= p < pre.len() && (#[trigger] pre[p]).var.id == v;
        lemma_vars_used_has(pre, s.len(), v, p);
        let x = choose|x: int| 0 <= x < vs.len() && vs[x] == v;
        lemma_history_numero(ops, s, plan, j as nat, v);
        assert(sup[x].spec_numero() == -1);
    }
}

/// The support matrix of the plan, of size `n + 2` for `n` steps: the entry at row `i` and
/// column `j` is 1 where step `i` supports step `j` (column `n` for the goals, row `n + 1` for
/// the initial state), and 0 elsewhere.
pub fn matricesupport(plan: &Vec<Op>, ground: &GroundProblem) -> (res: IntMatrix)
    requires
        plan@.len() < i32::MAX,
        ops_wf(ground.operators@, ground.initial_state@.len()),
        plan_in(ground.operators@, plan@),
    ensures
        res.wf(),
        res@ == support_seq(ground.operators@, ground.initial_state@, plan@, ground.goals@, plan@.len() + 2int),
        res.spec_ncols() == plan@.len() + 2,
{
    build_support(plan, ground, true)
}


/// Whether step `y` supports step `x` in the matrix `m` (a non-zero entry at row `y`, column
/// `x`).
pub open spec fn edge(m: Seq<Seq<i32>>, y: int, x: int) -> bool {
    m[y][x] != 0
}

/// Whether a chain of at most `k` support links leads from step `y` (one of the first `n`) to a
/// step of `src`.
pub open spec fn reaches(m: Seq<Seq<i32>>, n: int, src: Set<int>, y: int, k: nat) -> bool
    decreases k,
{
    src.contains(y) || (k > 0 && exists|x: int| 0 <= x < n && #[trigger] edge(m, y, x) && reaches(m, n, src, x, (k - 1) as nat))
}

/// The least `k` from `k0` up to `cap` such that `reaches(.., y, k)`, or `cap + 1` if there is
/// none.
pub open spec fn dist_from(m: Seq<Seq<i32>>, n: int, src: Set<int>, cap: int, y: int, k0: nat) -> nat
    decreases cap + 1 - k0,
{
    if k0 > cap {
        (cap + 1) as nat
    } else if reaches(m, n, src, y, k0) {
        k0
    } else {
        dist_from(m, n, src, cap, y, k0 + 1)
    }
}

/// The length of a shortest chain of support links from step `y` to a step of `src`, or
/// `cap + 1` if no chain of at most `cap` links exists.
pub open spec fn dist(m: Seq<Seq<i32>>, n: int, src: Set<int>, cap: int, y: int) -> nat {
    dist_from(m, n, src, cap, y, 0)
}

/// A chain of at most `k` links is one of at most `k + 1` links.
pub proof fn lemma_reaches_mono(m: Seq<Seq<i32>>, n: int, src: Set<int>, y: int, k: nat)
    requires
        reaches(m, n, src, y, k),
    ensures
        reaches(m, n, src, y, k + 1),
    decreases k,
{
    if !src.contains(y) {
        let x = choose|x: int| 0 <= x < n && #[trigger] edge(m, y, x) && reaches(m, n, src, x, (k - 1) as nat);
        lemma_reaches_mono(m, n, src, x, (k - 1) as nat);
        assert(0 <= x < n && edge(m, y, x) && reaches(m, n, src, x, k));
    }
}

/// A chain of at most `j` links is one of at most `k` links, for `j <= k`.
pub proof fn lemma_reaches_le(m: Seq<Seq<i32>>, n: int, src: Set<int>, y: int, j: nat, k: nat)
    requires
        reaches(m, n, src, y, j),
        j <= k,
    ensures
        reaches(m, n, src, y, k),
    decreases k - j,
{
    if j < k {
        lemma_reaches_mono(m, n, src, y, j);
        lemma_reaches_le(m, n, src, y, j + 1, k);
    }
}

proof fn lemma_dist_from(m: Seq<Seq<i32>>, n: int, src: Set<int>, cap: int, y: int, k0: nat)
    requires
        k0 <= cap + 1,
    ensures
        k0 <= dist_from(m, n, src, cap, y, k0) <= cap + 1,
        dist_from(m, n, src, cap, y, k0) <= cap ==> reaches(m, n, src, y, dist_from(m, n, src, cap, y, k0)),
        forall|k: nat| k0 <= k < dist_from(m, n, src, cap, y, k0) && k <= cap ==> !reaches(m, n, src, y, k),
    decreases cap + 1 - k0,
{
    if k0 <= cap && !reaches(m, n, src, y, k0) {
        lemma_dist_from(m, n, src, cap, y, k0 + 1);
    }
}

/// What `dist` is: at most `cap + 1`; a chain of that length exists when it is at most `cap`;
/// no shorter chain exists.
pub proof fn lemma_dist(m: Seq<Seq<i32>>, n: int, src: Set<int>, cap: int, y: int)
    requires
        cap >= 0,
    ensures
        dist(m, n, src, cap, y) <= cap + 1,
        dist(m, n, src, cap, y) <= cap ==> reaches(m, n, src, y, dist(m, n, src, cap, y)),
        forall|k: nat| k < dist(m, n, src, cap, y) && k <= cap ==> !reaches(m, n, src, y, k),
{
    lemma_dist_from(m, n, src, cap, y, 0);
}

/// A chain of at most `k <= cap` links bounds `dist`.
pub proof fn lemma_dist_le(m: Seq<Seq<i32>>, n: int, src: Set<int>, cap: int, y: int, k: nat)
    requires
        cap >= 0,
        k <= cap,
        reaches(m, n, src, y, k),
    ensures
        dist(m, n, src, cap, y) <= k,
{
    lemma_dist(m, n, src, cap, y);
}

/// A step at finite, non-zero `dist` supports a step whose `dist` is one less.
pub proof fn lemma_dist_step(m: Seq<Seq<i32>>, n: int, src: Set<int>, cap: int, y: int) -> (x: int)
    requires
        cap >= 0,
        0 < dist(m, n, src, cap, y) <= cap,
    ensures
        0 <= x < n,
        edge(m, y, x),
        dist(m, n, src, cap, x) == dist(m, n, src, cap, y) - 1,
{
    lemma_dist(m, n, src, cap, y);
    let d = dist(m, n, src, cap, y);
    assert(!reaches(m, n, src, y, 0));
    let x = choose|x: int| 0 <= x < n && #[trigger] edge(m, y, x) && reaches(m, n, src, x, (d - 1) as nat);
    lemma_dist_le(m, n, src, cap, x, (d - 1) as nat);
    lemma_dist(m, n, src, cap, x);
    let e = dist(m, n, src, cap, x);
    if e < d - 1 {
        assert(reaches(m, n, src, x, e));
        assert(reaches(m, n, src, y, e + 1));
        assert(false);
    }
    x
}


/// The step a necessity record is about.
pub open spec fn idx(e: Necessaire) -> int {
    e.spec_opnec().spec_numero() as int
}

/// Whether `a` comes before `b` by length, then by step.
pub open spec fn before_nec(a: Necessaire, b: Necessaire) -> bool {
    a.spec_long() < b.spec_long() || (a.spec_long() == b.spec_long() && idx(a) < idx(b))
}

/// Whether `p` is a chain of support links that ends with a step of `src`, read from that step:
/// each step supports the one before it, and `y` supports the last one; `recs` gives the record
/// of each step.
pub open spec fn chain_ok(m: Seq<Seq<i32>>, n: int, src: Set<int>, recs: Seq<Resume>, y: int, p: Seq<Resume>) -> bool {
    &&& p.len() > 0
    &&& forall|i: int| 0 <= i < p.len() ==> 0 <= (#[trigger] p[i]).spec_numero() < n && p[i] == recs[p[i].spec_numero() as int]
    &&& src.contains(p[0].spec_numero() as int)
    &&& forall|i: int| 0 <= i < p.len() - 1 ==> #[trigger] edge(m, p[i + 1].spec_numero() as int, p[i].spec_numero() as int)
    &&& edge(m, y, p.last().spec_numero() as int)
}

/// Whether a necessity record is consistent: about one of the `n` steps with its record; a
/// finite length (at most `cap`) is that of a chain to a step of `src`, which the path holds
/// (none for length 0); the step is necessary exactly when its length is finite (else it is
/// `cap + 1`).
pub open spec fn entry_ok(m: Seq<Seq<i32>>, n: int, src: Set<int>, recs: Seq<Resume>, cap: int, e: Necessaire) -> bool {
    let y = idx(e);
    let l = e.spec_long();
    &&& 0 <= y < n
    &&& e.spec_opnec() == recs[y]
    &&& l <= cap + 1
    &&& e.spec_nec() == (l <= cap)
    &&& (l <= cap ==> reaches(m, n, src, y, l as nat))
    &&& if l == 0 || l == cap + 1 {
        e.spec_chemin() is None
    } else {
        e.spec_chemin() matches Some(p) && p.len() == l && chain_ok(m, n, src, recs, y, p)
    }
}

/// Whether step `k` has a record in `s`.
pub open spec fn has_idx(s: Seq<Necessaire>, k: int) -> bool {
    exists|i: int| 0 <= i < s.len() && idx(#[trigger] s[i]) == k
}

/// The steps whose initial record has length 0.
pub open spec fn sources(init: Seq<Necessaire>, n: int) -> Set<int> {
    Set::new(|k: int| 0 <= k < n && init[k].spec_long() == 0)
}

/// The records of the steps, as the initial necessity records give them.
pub open spec fn recs_of(init: Seq<Necessaire>) -> Seq<Resume> {
    init.map_values(|e: Necessaire| e.spec_opnec())
}

/// Initial records of the search: one per step, in order, without path; length 0 and necessary
/// for the steps to reach, length `cap + 1` and not necessary for the others.
pub open spec fn init_ok(init: Seq<Necessaire>, n: int, cap: int) -> bool {
    &&& init.len() == n
    &&& forall|k: int| 0 <= k < n ==> {
        &&& idx(#[trigger] init[k]) == k
        &&& init[k].spec_chemin() is None
        &&& ((init[k].spec_long() == 0 && init[k].spec_nec()) || (init[k].spec_long() == cap + 1 && !init[k].spec_nec()))
    }
}

/// The invariant of the search: `t` holds the records done (final lengths, in order), `a` those
/// left (in order of step), each step in exactly one of them.
pub open spec fn search_inv(m: Seq<Seq<i32>>, n: int, src: Set<int>, recs: Seq<Resume>, cap: int, t: Seq<Necessaire>, a: Seq<Necessaire>) -> bool {
    &&& t.len() + a.len() == n
    &&& forall|i: int| 0 <= i < t.len() ==> entry_ok(m, n, src, recs, cap, #[trigger] t[i])
    &&& forall|i: int| 0 <= i < a.len() ==> entry_ok(m, n, src, recs, cap, #[trigger] a[i])
    &&& forall|i: int, j: int| 0 <= i < j < a.len() ==> idx(#[trigger] a[i]) < idx(#[trigger] a[j])
    &&& forall|k: int| 0 <= k < n ==> (#[trigger] has_idx(a, k) != has_idx(t, k))
    &&& forall|i: int, j: int| 0 <= i < j < t.len() ==> before_nec(#[trigger] t[i], #[trigger] t[j])
    &&& t.len() > 0 ==> forall|j: int| 0 <= j < a.len() ==> before_nec(t.last(), #[trigger] a[j])
    &&& forall|i: int| 0 <= i < t.len() ==> (#[trigger] t[i]).spec_long() == dist(m, n, src, cap, idx(t[i]))
    &&& forall|j: int| 0 <= j < a.len() ==> src.contains(idx(#[trigger] a[j])) ==> a[j].spec_long() == 0
    &&& forall|i: int, j: int| 0 <= i < t.len() && 0 <= j < a.len() && edge(m, idx(#[trigger] a[j]), idx(#[trigger] t[i]))
        ==> a[j].spec_long() <= t[i].spec_long() + 1
}

/// What the search gives: one record per step, ordered by length then step, each with the length
/// of a shortest chain of at most `cap` support links to a step of `src` (`cap + 1` if there is
/// none), as
/// `entry_ok` describes it.
pub open spec fn search_result(m: Seq<Seq<i32>>, n: int, src: Set<int>, recs: Seq<Resume>, cap: int, res: Seq<Necessaire>) -> bool {
    &&& res.len() == n
    &&& forall|i: int| 0 <= i < n ==> entry_ok(m, n, src, recs, cap, #[trigger] res[i]) && res[i].spec_long() == dist(
        m,
        n,
        src,
        cap,
        idx(res[i]),
    )
    &&& forall|i: int, j: int| 0 <= i < j < n ==> before_nec(#[trigger] res[i], #[trigger] res[j])
    &&& forall|k: int| 0 <= k < n ==> #[trigger] has_idx(res, k)
}

/// Some record left has a length at most the `dist` of any step left.
proof fn lemma_frontier(m: Seq<Seq<i32>>, n: int, src: Set<int>, recs: Seq<Resume>, cap: int, t: Seq<Necessaire>, a: Seq<Necessaire>, k: int)
    requires
        cap >= 0,
        search_inv(m, n, src, recs, cap, t, a),
        0 <= k < n,
        has_idx(a, k),
        dist(m, n, src, cap, k) <= cap,
    ensures
        exists|j: int| 0 <= j < a.len() && (#[trigger] a[j]).spec_long() <= dist(m, n, src, cap, k),
    decreases dist(m, n, src, cap, k),
{
    let d = dist(m, n, src, cap, k);
    let jk = choose|j: int| 0 <= j < a.len() && idx(#[trigger] a[j]) == k;
    lemma_dist(m, n, src, cap, k);
    if d == 0 {
        assert(reaches(m, n, src, k, 0));
        assert(src.contains(k));
        assert(a[jk].spec_long() <= d);
    } else {
        let x = lemma_dist_step(m, n, src, cap, k);
        if has_idx(t, x) {
            let it = choose|i: int| 0 <= i < t.len() && idx(#[trigger] t[i]) == x;
            assert(edge(m, idx(a[jk]), idx(t[it])));
            assert(a[jk].spec_long() <= d);
        } else {
            assert(has_idx(a, x));
            lemma_frontier(m, n, src, recs, cap, t, a, x);
            let j = choose|j: int| 0 <= j < a.len() && (#[trigger] a[j]).spec_long() <= dist(m, n, src, cap, x);
            assert(a[j].spec_long() <= d);
        }
    }
}

/// The record of least length (the first one among equals) has the `dist` of its step as length.
proof fn lemma_extract(m: Seq<Seq<i32>>, n: int, src: Set<int>, recs: Seq<Resume>, cap: int, t: Seq<Necessaire>, a: Seq<Necessaire>, index: int)
    requires
        cap >= 0,
        search_inv(m, n, src, recs, cap, t, a),
        0 <= index < a.len(),
        forall|j: int| 0 <= j < a.len() ==> a[index].spec_long() <= (#[trigger] a[j]).spec_long(),
    ensures
        a[index].spec_long() == dist(m, n, src, cap, idx(a[index])),
{
    let x = idx(a[index]);
    let l = a[index].spec_long();
    assert(entry_ok(m, n, src, recs, cap, a[index]));
    lemma_dist(m, n, src, cap, x);
    assert(has_idx(a, x));
    if dist(m, n, src, cap, x) <= cap {
        lemma_frontier(m, n, src, recs, cap, t, a, x);
        let j = choose|j: int| 0 <= j < a.len() && (#[trigger] a[j]).spec_long() <= dist(m, n, src, cap, x);
        assert(l <= dist(m, n, src, cap, x));
        if l <= cap {
            lemma_dist_le(m, n, src, cap, x, l as nat);
        }
    } else {
        if l <= cap {
            lemma_dist_le(m, n, src, cap, x, l as nat);
        }
    }
}


/// Position of the first record of least length.
pub(crate) fn first_min(a: &Vec<Necessaire>) -> (index: usize)
    requires
        a@.len() > 0,
    ensures
        index < a@.len(),
        forall|j: int| 0 <= j < a@.len() ==> a@[index as int].spec_long() <= (#[trigger] a@[j]).spec_long(),
        forall|j: int| 0 <= j < index ==> a@[index as int].spec_long() < (#[trigger] a@[j]).spec_long(),
{
    let mut index: usize = 0;
    let mut k: usize = 1;
    while k < a.len()
        invariant
            1 <= k <= a@.len(),
            index < k,
            forall|j: int| 0 <= j < k ==> a@[index as int].spec_long() <= (#[trigger] a@[j]).spec_long(),
            forall|j: int| 0 <= j < index ==> a@[index as int].spec_long() < (#[trigger] a@[j]).spec_long(),
        decreases a@.len() - k,
    {
        if a[k].long() < a[index].long() {
            index = k;
        }
        k = k + 1;
    }
    index
}

/// Position of the record of step `i`, if any.
fn position_of(a: &Vec<Necessaire>, i: usize) -> (p: usize)
    ensures
        p <= a@.len(),
        p < a@.len() ==> idx(a@[p as int]) == i,
        p == a@.len() ==> forall|j: int| 0 <= j < a@.len() ==> idx(#[trigger] a@[j]) != i,
{
    let mut p: usize = 0;
    while p < a.len()
        invariant
            p <= a@.len(),
            forall|j: int| 0 <= j < p ==> idx(#[trigger] a@[j]) != i,
        decreases a@.len() - p,
    {
        let num = a[p].opnec().numero();
        if num >= 0 && num as usize == i {
            return p;
        }
        p = p + 1;
    }
    p
}

/// The records that the necessity search over the matrix `m` gives, in the order it takes them:
/// `weighted_run` over the links of `m`, each of length 1, from the records of the steps
/// `recs`, at length 0 for the steps of `src` and `inf` for the others.
pub open spec fn necessity_run(m: Seq<Seq<i32>>, recs: Seq<Resume>, src: Set<int>, inf: u32) -> Seq<NecV> {
    weighted_run(unit(m), necessity_start(recs, src, inf), seq![])
}

/// The first record of `s` about step `k`, if any.
pub open spec fn first_record(s: Seq<NecV>, k: int) -> Option<NecV>
    decreases s.len(),
{
    if s.len() == 0 {
        None
    } else if s[0].0.spec_numero() as int == k {
        Some(s[0])
    } else {
        first_record(s.drop_first(), k)
    }
}

/// The first record of step `k` is the one at the first position where step `k` stands.
pub proof fn lemma_first_record(s: Seq<NecV>, k: int, p: int)
    requires
        0 <= p < s.len(),
        s[p].0.spec_numero() as int == k,
        forall|j: int| 0 <= j < p ==> (#[trigger] s[j]).0.spec_numero() as int != k,
    ensures
        first_record(s, k) == Some(s[p]),
    decreases p,
{
    if p > 0 {
        assert forall|j: int| 0 <= j < p - 1 implies (#[trigger] s.drop_first()[j]).0.spec_numero() as int != k by {
            assert(s.drop_first()[j] == s[j + 1]);
        }
        assert(s[0].0.spec_numero() as int != k);
        lemma_first_record(s.drop_first(), k, p - 1);
    }
}

/// The shortest-chain search of the necessity analyses: from the initial records (length 0 for
/// the steps to reach, `n + 1` for the others), takes each time the record of least length (the
/// first one among equals) and shortens, through it, the records of the steps that support it.
#[verifier::rlimit(60)]
fn necessity_search(matrice: &IntMatrix, length: usize, init: Vec<Necessaire>, inf: u32) -> (res: Vec<Necessaire>)
    requires
        0 < length < i32::MAX,
        0 < inf < u32::MAX,
        matrice.wf(),
        matrice@.len() > length,
        matrice.spec_ncols() >= length,
        init_ok(init@, length as int, inf - 1),
    ensures
        search_result(matrice@, length as int, sources(init@, length as int), recs_of(init@), inf - 1, res@),
        necs_view(res@) == necessity_run(matrice@, recs_of(init@), sources(init@, length as int), inf),
{
    let ghost n = length as int;
    let ghost cap = inf - 1;
    let ghost m = matrice@;
    let ghost um = unit(matrice@);
    let ghost goal = weighted_run(um, necs_view(init@), seq![]);
    proof {
        lemma_start(init@, length as int, inf);
    }
    let ghost src = sources(init@, n);
    let ghost recs = recs_of(init@);
    let mut atraite = init;
    let mut traite: Vec<Necessaire> = Vec::new();
    proof {
        assert(necs_view(traite@) =~= seq![]);
        assert forall|i: int| 0 <= i < atraite@.len() implies entry_ok(m, n, src, recs, cap, #[trigger] atraite@[i]) by {
            assert(idx(atraite@[i]) == i);
            if atraite@[i].spec_long() == 0 {
                assert(src.contains(i));
            }
        }
        assert forall|k: int| 0 <= k < n implies (#[trigger] has_idx(atraite@, k) != has_idx(traite@, k)) by {
            assert(idx(atraite@[k]) == k);
        }
    }
    while atraite.len() > 0
        invariant
            0 < length < i32::MAX,
            n == length as int,
            m == matrice@,
            matrice.wf(),
            matrice@.len() > length,
            matrice.spec_ncols() >= length,
            src == sources(init@, n),
            recs == recs_of(init@),
            0 < inf < u32::MAX,
            cap == inf - 1,
            search_inv(m, n, src, recs, cap, traite@, atraite@),
            um == unit(m),
            weighted_run(um, necs_view(atraite@), necs_view(traite@)) == goal,
        decreases atraite@.len(),
    {
        let index = first_min(&atraite);
        proof {
            lemma_extract(m, n, src, recs, cap, traite@, atraite@, index as int);
        }
        let ghost a0 = atraite@;
        let somme = atraite.remove(index);
        let ghost a1 = atraite@;
        let ghost sv = nec_view(somme);
        proof {
            assert(a1 == a0.remove(index as int));
            assert(entry_ok(m, n, src, recs, cap, a0[index as int]));
        }
        let ind = somme.opnec().numero() as usize;
        let sl = somme.long();
        let mut i: usize = 0;
        while i < length + 1
            invariant
                0 < length < i32::MAX,
                n == length as int,
                m == matrice@,
                matrice.wf(),
                matrice@.len() > length,
                matrice.spec_ncols() >= length,
                i <= length + 1,
                ind as int == idx(somme),
                forall|i2: int, j2: int| 0 <= i2 < j2 < a1.len() ==> idx(#[trigger] a1[i2]) < idx(#[trigger] a1[j2]),
                ind < length,
                sl == somme.spec_long(),
                0 < inf < u32::MAX,
                cap == inf - 1,
                sl <= cap + 1,
                entry_ok(m, n, src, recs, cap, somme),
                atraite@.len() == a1.len(),
                forall|j: int| 0 <= j < a1.len() ==> idx(#[trigger] atraite@[j]) == idx(a1[j]),
                forall|j: int| 0 <= j < a1.len() ==> entry_ok(m, n, src, recs, cap, #[trigger] atraite@[j]),
                forall|j: int| 0 <= j < a1.len() ==> (#[trigger] atraite@[j]).spec_long() <= a1[j].spec_long(),
                forall|j: int| 0 <= j < a1.len() ==> before_nec(somme, #[trigger] atraite@[j]) || before_nec(somme, a1[j]) && atraite@[j] == a1[j],
                forall|j: int| 0 <= j < a1.len() && idx(#[trigger] atraite@[j]) < i && edge(m, idx(atraite@[j]), ind as int)
                    ==> atraite@[j].spec_long() <= sl + 1,
                um == unit(m),
                sv == nec_view(somme),
                forall|j: int| 0 <= j < a1.len() ==> nec_view(#[trigger] atraite@[j]) == if idx(a1[j]) < i {
                    relax_one(um, sv, nec_view(a1[j]))
                } else {
                    nec_view(a1[j])
                },
            decreases length + 1 - i,
        {
            let ghost before = atraite@;
            let e = matrice.get(i, ind);
            let mut p: usize = atraite.len();
            if e != 0 {
                p = position_of(&atraite, i);
                if p < atraite.len() && atraite[p].long() > sl + 1 {
                    let mut newchemin = match somme.chemin() {
                        Some(c) => c,
                        None => Vec::new(),
                    };
                    let ghost c0 = newchemin@;
                    newchemin.push(somme.opnec());
                    let nec = newnec(atraite[p].opnec(), somme.nec(), newchemin, sl + 1);
                    proof {
                        let y = i as int;
                        let old_e = atraite@[p as int];
                        assert(entry_ok(m, n, src, recs, cap, old_e));
                        assert(sl + 1 <= cap);
                        assert(reaches(m, n, src, ind as int, sl as nat));
                        assert(0 <= ind < n && edge(m, y, ind as int) && reaches(m, n, src, ind as int, ((sl + 1) - 1) as nat));
                        assert(reaches(m, n, src, y, (sl + 1) as nat));
                        let p2 = newchemin@;
                        if sl == 0 {
                            assert(somme.spec_chemin() is None);
                            assert(reaches(m, n, src, ind as int, 0));
                            assert(src.contains(ind as int));
                            assert(p2 =~= seq![somme.spec_opnec()]);
                        } else {
                            let p0 = somme.spec_chemin()->Some_0;
                            assert(c0 == p0);
                            assert(chain_ok(m, n, src, recs, ind as int, p0));
                            assert(p2 == p0.push(somme.spec_opnec()));
                            assert forall|k: int| 0 <= k < p2.len() - 1 implies #[trigger] edge(m, p2[k + 1].spec_numero() as int, p2[k].spec_numero() as int) by {
                                if k < p0.len() - 1 {
                                    assert(p2[k + 1] == p0[k + 1]);
                                    assert(edge(m, p0[k + 1].spec_numero() as int, p0[k].spec_numero() as int));
                                }
                            }
                            assert forall|k: int| 0 <= k < p2.len() implies 0 <= (#[trigger] p2[k]).spec_numero() < n && p2[k] == recs[p2[k].spec_numero() as int] by {
                                if k < p0.len() {
                                    assert(p2[k] == p0[k]);
                                }
                            }
                        }
                        assert(entry_ok(m, n, src, recs, cap, nec));
                    }
                    atraite.set(p, nec);
                }
            }
            proof {
                assert forall|j: int| 0 <= j < a1.len() && idx(#[trigger] atraite@[j]) < i + 1 && edge(m, idx(atraite@[j]), ind as int)
                    implies atraite@[j].spec_long() <= sl + 1 by {
                    if j != p {
                        assert(atraite@[j] == before[j]);
                        if idx(before[j]) == i {
                            assert(edge(m, i as int, ind as int));
                            assert(e != 0);
                            assert(p < before.len());
                            assert(idx(before[p as int]) == i);
                            if idx(before[j]) == idx(before[p as int]) {
                                if j < p {
                                    assert(idx(a1[j]) < idx(a1[p as int]));
                                } else {
                                    assert(idx(a1[p as int]) < idx(a1[j]));
                                }
                            }
                        }
                    }
                }
            }
            i = i + 1;
        }
        let ghost a2 = atraite@;
        let ghost t1 = traite@;
        traite.push(somme);
        proof {
            // one step of the run
            let v0 = necs_view(a0);
            lemma_min_pos(v0);
            assert(is_first_min(v0, index as int));
            assert(min_pos(v0) == index as int);
            assert(v0[index as int] == sv);
            assert(necs_view(a1) =~= v0.remove(index as int));
            assert forall|j: int| 0 <= j < a1.len() implies idx(a1[j]) < length + 1 by {
                if j < index {
                    assert(a1[j] == a0[j]);
                } else {
                    assert(a1[j] == a0[j + 1]);
                }
            }
            assert(necs_view(a2) =~= relax(um, sv, necs_view(a1)));
            assert(necs_view(traite@) =~= necs_view(t1).push(sv));
            assert(weighted_run(um, v0, necs_view(t1)) == weighted_run(um, relax(um, v0[min_pos(v0)], v0.remove(min_pos(v0))), necs_view(t1).push(v0[min_pos(v0)])));
        }
        proof {
            let t2 = traite@;
            assert(t2.drop_last() =~= t1);
            assert(a0.len() == a1.len() + 1);
            // every step is in exactly one of the two lists
            assert forall|k: int| 0 <= k < n implies (#[trigger] has_idx(a2, k) != has_idx(t2, k)) by {
                if has_idx(a2, k) {
                    let j = choose|j: int| 0 <= j < a2.len() && idx(#[trigger] a2[j]) == k;
                    if j < index {
                        assert(a0[j] == a1[j]);
                        assert(idx(a0[j]) == k);
                    } else {
                        assert(a0[j + 1] == a1[j]);
                        assert(idx(a0[j + 1]) == k);
                    }
                    assert(has_idx(a0, k));
                    if has_idx(t2, k) {
                        let i2 = choose|i2: int| 0 <= i2 < t2.len() && idx(#[trigger] t2[i2]) == k;
                        if i2 < t1.len() {
                            assert(t1[i2] == t2[i2]);
                            assert(has_idx(t1, k));
                        } else {
                            assert(idx(a0[index as int]) == k);
                            assert(false);
                        }
                    }
                } else if has_idx(a0, k) {
                    let j = choose|j: int| 0 <= j < a0.len() && idx(#[trigger] a0[j]) == k;
                    if j != index {
                        if j < index {
                            assert(idx(a2[j]) == idx(a1[j]));
                        } else {
                            assert(idx(a2[j - 1]) == idx(a1[j - 1]));
                        }
                        assert(false);
                    }
                    assert(t2[t1.len() as int] == somme);
                } else {
                    assert(has_idx(t1, k));
                    let i2 = choose|i2: int| 0 <= i2 < t1.len() && idx(#[trigger] t1[i2]) == k;
                    assert(t2[i2] == t1[i2]);
                }
            }
            assert forall|i2: int, j2: int| 0 <= i2 < j2 < a2.len() implies idx(#[trigger] a2[i2]) < idx(#[trigger] a2[j2]) by {
                if j2 < index {
                } else if i2 < index {
                    assert(a1[j2] == a0[j2 + 1]);
                } else {
                    assert(a1[i2] == a0[i2 + 1]);
                    assert(a1[j2] == a0[j2 + 1]);
                }
            }
            assert forall|j: int| 0 <= j < a2.len() implies before_nec(t2.last(), #[trigger] a2[j]) by {
                assert(t2.last() == somme);
                if !before_nec(somme, a2[j]) {
                    assert(before_nec(somme, a1[j]));
                }
            }
            assert forall|i2: int, j2: int| 0 <= i2 < j2 < t2.len() implies before_nec(#[trigger] t2[i2], #[trigger] t2[j2]) by {
                if j2 < t1.len() {
                    assert(t2[i2] == t1[i2] && t2[j2] == t1[j2]);
                } else {
                    assert(t2[j2] == a0[index as int]);
                    if i2 < t1.len() - 1 {
                        assert(before_nec(t1[i2], t1.last()));
                    }
                    assert(t2[i2] == t1[i2]);
                }
            }
            assert forall|i2: int| 0 <= i2 < t2.len() implies (#[trigger] t2[i2]).spec_long() == dist(m, n, src, cap, idx(t2[i2])) by {
                if i2 < t1.len() {
                    assert(t2[i2] == t1[i2]);
                }
            }
            assert forall|i2: int| 0 <= i2 < t2.len() implies entry_ok(m, n, src, recs, cap, #[trigger] t2[i2]) by {
                if i2 < t1.len() {
                    assert(t2[i2] == t1[i2]);
                }
            }
            assert forall|j: int| 0 <= j < a2.len() implies src.contains(idx(#[trigger] a2[j])) ==> a2[j].spec_long() == 0 by {
                if j < index {
                    assert(a1[j] == a0[j]);
                } else {
                    assert(a1[j] == a0[j + 1]);
                }
            }
            assert forall|i2: int, j: int| 0 <= i2 < t2.len() && 0 <= j < a2.len() && edge(m, idx(#[trigger] a2[j]), idx(#[trigger] t2[i2]))
                implies a2[j].spec_long() <= t2[i2].spec_long() + 1 by {
                if i2 < t1.len() {
                    assert(t2[i2] == t1[i2]);
                    if j < index {
                        assert(a1[j] == a0[j]);
                    } else {
                        assert(a1[j] == a0[j + 1]);
                    }
                } else {
                    assert(t2[i2] == somme);
                }
            }
        }
    }
    proof {
        let t = traite@;
        assert forall|k: int| 0 <= k < n implies #[trigger] has_idx(t, k) by {
            assert(has_idx(atraite@, k) != has_idx(t, k));
        }
    }
    traite
}


/// The steps of the plan that support a goal.
pub open spec fn goal_sources(ops: Seq<OperatorV>, s: Seq<bool>, plan: Seq<Op>, goals: Seq<Lit>) -> Set<int> {
    Set::new(|k: int| 0 <= k < plan.len() && has_step(goal_supports(ops, s, plan, goals), k))
}

/// The record of each step of the plan.
pub open spec fn plan_records(plan: Seq<Op>) -> Seq<Resume> {
    Seq::new(plan.len(), |k: int| Resume::spec_new(Some(plan[k]), k as i32))
}

/// The initial records of the necessity search: length 0 and necessary for the steps that
/// support a goal, length `n + 1` and not necessary for the others.
pub(crate) fn initial_necessity(plan: &Vec<Op>, ground: &GroundProblem, inf: u32) -> (res: Vec<Necessaire>)
    requires
        plan@.len() < i32::MAX,
        0 < inf,
        ops_wf(ground.operators@, ground.initial_state@.len()),
        plan_in(ground.operators@, plan@),
    ensures
        init_ok(res@, plan@.len() as int, inf - 1),
        sources(res@, plan@.len() as int) == goal_sources(ground.operators@, ground.initial_state@, plan@, ground.goals@),
        recs_of(res@) == plan_records(plan@),
{
    let ghost (o, s, p, g) = (ground.operators@, ground.initial_state@, plan@, ground.goals@);
    let length = plan.len();
    let cause = goal_supports_of(plan, &ground.initial_state, &ground.operators, &ground.goals);
    let mut atraite: Vec<Necessaire> = Vec::new();
    let mut count: usize = 0;
    while count < length
        invariant
            count <= length == p.len() < i32::MAX,
            0 < inf,
            p == plan@,
            cause@ == goal_supports(o, s, p, g),
            atraite@.len() == count,
            forall|k: int| 0 <= k < count ==> {
                &&& idx(#[trigger] atraite@[k]) == k
                &&& atraite@[k].spec_opnec() == plan_records(p)[k]
                &&& atraite@[k].spec_chemin() is None
                &&& ((atraite@[k].spec_long() == 0 && atraite@[k].spec_nec() && has_step(cause@, k)) || (
                    atraite@[k].spec_long() == inf && !atraite@[k].spec_nec() && !has_step(cause@, k)))
            },
        decreases length - count,
    {
        let step = newresume(plan[count], count as i32);
        proof {
            Resume::lemma_spec_new(Some(plan@[count as int]), count as i32);
        }
        let mut nec = initnec(step, inf);
        let mut t: usize = 0;
        while t < cause.len()
            invariant
                t <= cause@.len(),
                step == Resume::spec_new(Some(p[count as int]), count as i32),
                nec.spec_opnec() == step,
                nec.spec_chemin() is None,
                count < length < i32::MAX,
                0 < inf,
                (nec.spec_long() == 0 && nec.spec_nec() && has_step_before(cause@, count as int, t as int)) || (
                    nec.spec_long() == inf && !nec.spec_nec() && !has_step_before(cause@, count as int, t as int)),
            decreases cause@.len() - t,
        {
            if cause[t].numero() == count as i32 {
                nec = newnecgoal(step);
            }
            proof {
                if has_step_before(cause@, count as int, t as int) {
                    let w = choose|w: int| 0 <= w < t && #[trigger] cause@[w].spec_numero() == count as int;
                    assert(0 <= w < t + 1 && cause@[w].spec_numero() == count as int);
                }
                if cause@[t as int].spec_numero() == count as i32 {
                    assert(has_step_before(cause@, count as int, t + 1));
                }
            }
            t = t + 1;
        }
        proof {
            assert(has_step_before(cause@, count as int, t as int) == has_step(cause@, count as int));
        }
        atraite.push(nec);
        count = count + 1;
    }
    proof {
        assert(sources(atraite@, length as int) =~= goal_sources(o, s, p, g));
        assert(recs_of(atraite@) =~= plan_records(p));
    }
    atraite
}

/// Which steps of the plan are necessary, by the length of a shortest chain of support links
/// from each step to a step that supports a goal (0 for those, `n + 1` for steps without such a
/// chain, which are not necessary): one record per step, ordered by length then step, with the
/// chain (read from the goal side) of the steps that are not themselves supports of goals.
pub fn dijkstra(plan: Vec<Op>, ground: &GroundProblem) -> (res: Vec<Necessaire>)
    requires
        0 < plan@.len() < i32::MAX,
        ops_wf(ground.operators@, ground.initial_state@.len()),
        plan_in(ground.operators@, plan@),
    ensures
        search_result(
            support_seq(ground.operators@, ground.initial_state@, plan@, ground.goals@, plan@.len() + 1int),
            plan@.len() as int,
            goal_sources(ground.operators@, ground.initial_state@, plan@, ground.goals@),
            plan_records(plan@),
            plan@.len() as int,
            res@,
        ),
        necs_view(res@) == necessity_run(
            support_seq(ground.operators@, ground.initial_state@, plan@, ground.goals@, plan@.len() + 1int),
            plan_records(plan@),
            goal_sources(ground.operators@, ground.initial_state@, plan@, ground.goals@),
            (plan@.len() + 1) as u32,
        ),
{
    let matrice = build_support(&plan, ground, false);
    let atraite = initial_necessity(&plan, ground, plan.len() as u32 + 1);
    necessity_search(&matrice, plan.len(), atraite, plan.len() as u32 + 1)
}

/// The same analysis as `dijkstra`, over the support matrix `support` given by the caller.
pub fn dijkstra2(support: &IntMatrix, plan: Vec<Op>, ground: &GroundProblem) -> (res: Vec<Necessaire>)
    requires
        0 < plan@.len() < i32::MAX,
        ops_wf(ground.operators@, ground.initial_state@.len()),
        plan_in(ground.operators@, plan@),
        support.wf(),
        support@.len() > plan@.len(),
        support.spec_ncols() >= plan@.len(),
    ensures
        search_result(
            support@,
            plan@.len() as int,
            goal_sources(ground.operators@, ground.initial_state@, plan@, ground.goals@),
            plan_records(plan@),
            plan@.len() as int,
            res@,
        ),
        necs_view(res@) == necessity_run(
            support@,
            plan_records(plan@),
            goal_sources(ground.operators@, ground.initial_state@, plan@, ground.goals@),
            (plan@.len() + 1) as u32,
        ),
{
    let atraite = initial_necessity(&plan, ground, plan.len() as u32 + 1);
    necessity_search(support, plan.len(), atraite, plan.len() as u32 + 1)
}


/// Whether some literal of `lits` is about the variable `v`.
pub open spec fn speaks_of(lits: Seq<Lit>, v: SVId) -> bool {
    exists|k: int| 0 <= k < lits.len() && (#[trigger] lits[k]).var == v
}

/// Whether some literal of `lits` is about the variable `v`.
fn has_var(lits: &[Lit], v: SVId) -> (res: bool)
    ensures
        res == speaks_of(lits@, v),
{
    let mut k: usize = 0;
    while k < lits.len()
        invariant
            k <= lits@.len(),
            forall|j: int| 0 <= j < k ==> (#[trigger] lits@[j]).var != v,
        decreases lits@.len() - k,
    {
        if lits[k].var == v {
            return true;
        }
        k = k + 1;
    }
    false
}

/// Whether step `i` of the plan acts on step `j` through one of the variables `predicat`: some
/// effect of step `i` and some precondition of step `j` are both about it.
pub open spec fn linked_by(ops: Seq<OperatorV>, plan: Seq<Op>, predicat: Seq<SVId>, i: int, j: int) -> bool {
    exists|c: int| 0 <= c < predicat.len() && speaks_of(ops[plan[j].id as int].pre, #[trigger] predicat[c]) && speaks_of(
        ops[plan[i].id as int].eff,
        predicat[c],
    )
}

/// Whether step `i` acts on step `j` through one of the variables `predicat`.
fn is_linked_by(ops: &Operators, plan: &Vec<Op>, predicat: &Vec<SVId>, i: usize, j: usize) -> (res: bool)
    requires
        i < plan@.len(),
        j < plan@.len(),
        plan_in(ops@, plan@),
    ensures
        res == linked_by(ops@, plan@, predicat@, i as int, j as int),
{
    assert(plan@[i as int].id < ops@.len() && plan@[j as int].id < ops@.len());
    let pre = ops.preconditions(plan[j]);
    let eff = ops.effects(plan[i]);
    let mut c: usize = 0;
    while c < predicat.len()
        invariant
            c <= predicat@.len(),
            pre@ == ops@[plan@[j as int].id as int].pre,
            eff@ == ops@[plan@[i as int].id as int].eff,
            forall|d: int| 0 <= d < c ==> !(speaks_of(pre@, #[trigger] predicat@[d]) && speaks_of(eff@, predicat@[d])),
        decreases predicat@.len() - c,
    {
        if has_var(pre, predicat[c]) && has_var(eff, predicat[c]) {
            return true;
        }
        c = c + 1;
    }
    false
}

/// The entry at row `i` and column `j` of the support matrix `m` (of `ncols` columns) weighted
/// by the variables `predicat`: within the first `n + 1` rows and columns, an entry 1 becomes
/// `infini` where the link goes through one of the variables (`avantage` false), or where it
/// does not (`avantage` true); the other entries are unchanged.
pub open spec fn weighted_entry(
    m: Seq<Seq<i32>>,
    ncols: int,
    ops: Seq<OperatorV>,
    plan: Seq<Op>,
    predicat: Seq<SVId>,
    infini: i32,
    avantage: bool,
    i: int,
    j: int,
) -> i32 {
    let n = plan.len() as int;
    if 0 <= i <= n && 0 <= j <= n && j < ncols && m[i][j] == 1 {
        let linked = i < n && j < n && linked_by(ops, plan, predicat, i, j);
        if avantage {
            if linked {
                1
            } else {
                infini
            }
        } else {
            if linked {
                infini
            } else {
                1
            }
        }
    } else {
        m[i][j]
    }
}

/// The support matrix `m` weighted by the variables `predicat`, as `weighted_entry` says.
pub open spec fn weighted_seq(
    m: Seq<Seq<i32>>,
    ncols: int,
    ops: Seq<OperatorV>,
    plan: Seq<Op>,
    predicat: Seq<SVId>,
    infini: i32,
    avantage: bool,
) -> Seq<Seq<i32>> {
    Seq::new(m.len(), |i: int| Seq::new(m[i].len(), |j: int| weighted_entry(m, ncols, ops, plan, predicat, infini, avantage, i, j)))
}

/// Weighting a support link from step `i` to step `j` by the variables `predicat` looks at both
/// ends: a link where step `i` has no effect on any of them, or step `j` no precondition on any
/// of them, keeps its entry (`avantage` false) or becomes `infini` (`avantage` true), and a link
/// where some variable of `predicat` is both in an effect of step `i` and in a precondition of
/// step `j` becomes `infini` (`avantage` false) or stays 1 (`avantage` true).
pub proof fn law_weight_needs_both_ends(
    m: Seq<Seq<i32>>,
    ncols: int,
    ops: Seq<OperatorV>,
    plan: Seq<Op>,
    predicat: Seq<SVId>,
    infini: i32,
    i: int,
    j: int,
)
    requires
        plan_in(ops, plan),
        0 <= i < plan.len(),
        0 <= j < plan.len(),
        i < m.len(),
        j < m[i].len(),
        j < ncols,
        m[i][j] == 1,
    ensures
        (forall|c: int| 0 <= c < predicat.len() ==> !speaks_of(ops[plan[i].id as int].eff, #[trigger] predicat[c])) ==> weighted_seq(
            m,
            ncols,
            ops,
            plan,
            predicat,
            infini,
            false,
        )[i][j] == 1 && weighted_seq(m, ncols, ops, plan, predicat, infini, true)[i][j] == infini,
        (forall|c: int| 0 <= c < predicat.len() ==> !speaks_of(ops[plan[j].id as int].pre, #[trigger] predicat[c])) ==> weighted_seq(
            m,
            ncols,
            ops,
            plan,
            predicat,
            infini,
            false,
        )[i][j] == 1 && weighted_seq(m, ncols, ops, plan, predicat, infini, true)[i][j] == infini,
        (exists|c: int|
            0 <= c < predicat.len() && speaks_of(ops[plan[j].id as int].pre, #[trigger] predicat[c]) && speaks_of(
                ops[plan[i].id as int].eff,
                predicat[c],
            )) ==> weighted_seq(m, ncols, ops, plan, predicat, infini, false)[i][j] == infini && weighted_seq(
            m,
            ncols,
            ops,
            plan,
            predicat,
            infini,
            true,
        )[i][j] == 1,
{
    assert(weighted_seq(m, ncols, ops, plan, predicat, infini, false)[i][j] == weighted_entry(m, ncols, ops, plan, predicat, infini, false, i, j));
    assert(weighted_seq(m, ncols, ops, plan, predicat, infini, true)[i][j] == weighted_entry(m, ncols, ops, plan, predicat, infini, true, i, j));
}

/// Weighting changes only support links: an entry other than 1, or outside the first `n + 1`
/// rows and columns of a plan of `n` steps, keeps its value, and the matrix keeps its shape.
pub proof fn law_weight_keeps_other_entries(
    m: Seq<Seq<i32>>,
    ncols: int,
    ops: Seq<OperatorV>,
    plan: Seq<Op>,
    predicat: Seq<SVId>,
    infini: i32,
    avantage: bool,
    i: int,
    j: int,
)
    requires
        0 <= i < m.len(),
        0 <= j < m[i].len(),
        m[i][j] != 1 || i > plan.len() || j > plan.len() || j >= ncols,
    ensures
        weighted_seq(m, ncols, ops, plan, predicat, infini, avantage).len() == m.len(),
        weighted_seq(m, ncols, ops, plan, predicat, infini, avantage)[i].len() == m[i].len(),
        weighted_seq(m, ncols, ops, plan, predicat, infini, avantage)[i][j] == m[i][j],
{
    assert(weighted_seq(m, ncols, ops, plan, predicat, infini, avantage)[i][j] == weighted_entry(
        m,
        ncols,
        ops,
        plan,
        predicat,
        infini,
        avantage,
        i,
        j,
    ));
}

/// The support matrix weighted by the variables `predicat`.
#[verifier::rlimit(30)]
pub(crate) fn weight_matrix(support: &IntMatrix, plan: &Vec<Op>, ops: &Operators, predicat: &Vec<SVId>, infini: i32, avantage: bool) -> (res: IntMatrix)
    requires
        support.wf(),
        support@.len() > plan@.len(),
        plan@.len() < i32::MAX,
        plan_in(ops@, plan@),
    ensures
        res.wf(),
        res.spec_ncols() == support.spec_ncols(),
        res@ == weighted_seq(support@, support.spec_ncols() as int, ops@, plan@, predicat@, infini, avantage),
{
    let ghost m0 = support@;
    let ghost nc = support.spec_ncols() as int;
    let mut matrice = support.copy();
    let length = plan.len();
    let mut a: usize = 0;
    while a < length + 1
        invariant
            a <= length + 1,
            length == plan@.len() < i32::MAX,
            plan_in(ops@, plan@),
            m0.len() > length,
            forall|r: int| 0 <= r < m0.len() ==> (#[trigger] m0[r]).len() == nc,
            matrice.wf(),
            matrice.spec_ncols() == nc,
            matrice@.len() == m0.len(),
            forall|i: int, j: int| 0 <= i < m0.len() && 0 <= j < nc ==> #[trigger] matrice.at(i, j) == if i < a {
                weighted_entry(m0, nc, ops@, plan@, predicat@, infini, avantage, i, j)
            } else {
                m0[i][j]
            },
        decreases length + 1 - a,
    {
        let mut b: usize = 0;
        while b < length + 1
            invariant
                a <= length,
                b <= length + 1,
                length == plan@.len() < i32::MAX,
                plan_in(ops@, plan@),
                m0.len() > length,
                forall|r: int| 0 <= r < m0.len() ==> (#[trigger] m0[r]).len() == nc,
                matrice.wf(),
                matrice.spec_ncols() == nc,
                matrice@.len() == m0.len(),
                forall|i: int, j: int| 0 <= i < m0.len() && 0 <= j < nc ==> #[trigger] matrice.at(i, j) == if i < a || (i
                    == a && j < b) {
                    weighted_entry(m0, nc, ops@, plan@, predicat@, infini, avantage, i, j)
                } else {
                    m0[i][j]
                },
            decreases length + 1 - b,
        {
            let ghost mb = matrice;
            match matrice.get_opt(a, b) {
                Some(v) => {
                    if v == 1 {
                        let linked = a < length && b < length && is_linked_by(ops, plan, predicat, a, b);
                        let w = if avantage {
                            if linked {
                                1
                            } else {
                                infini
                            }
                        } else {
                            if linked {
                                infini
                            } else {
                                1
                            }
                        };
                        matrice.set(a, b, w);
                    }
                },
                None => {},
            }
            proof {
                assert forall|i: int, j: int| 0 <= i < m0.len() && 0 <= j < nc implies #[trigger] matrice.at(i, j) == if i < a
                    || (i == a && j < b + 1) {
                    weighted_entry(m0, nc, ops@, plan@, predicat@, infini, avantage, i, j)
                } else {
                    m0[i][j]
                } by {
                    assert(mb.at(i, j) == if i < a || (i == a && j < b) {
                        weighted_entry(m0, nc, ops@, plan@, predicat@, infini, avantage, i, j)
                    } else {
                        m0[i][j]
                    });
                }
            }
            b = b + 1;
        }
        proof {
            assert forall|i: int, j: int| 0 <= i < m0.len() && 0 <= j < nc implies #[trigger] matrice.at(i, j) == if i < a + 1 {
                weighted_entry(m0, nc, ops@, plan@, predicat@, infini, avantage, i, j)
            } else {
                m0[i][j]
            } by {
                if i == a && j > length {
                    assert(matrice.at(i, j) == m0[i][j]);
                }
            }
        }
        a = a + 1;
    }
    proof {
        let w = weighted_seq(m0, nc, ops@, plan@, predicat@, infini, avantage);
        assert forall|i: int| 0 <= i < m0.len() implies (#[trigger] matrice@[i]) =~= w[i] by {
            assert(matrice@[i].len() == nc && w[i].len() == nc);
            assert forall|j: int| 0 <= j < nc implies matrice@[i][j] == w[i][j] by {
                assert(w[i][j] == weighted_entry(m0, nc, ops@, plan@, predicat@, infini, avantage, i, j));
                assert(matrice.at(i, j) == if i < a {
                    weighted_entry(m0, nc, ops@, plan@, predicat@, infini, avantage, i, j)
                } else {
                    m0[i][j]
                });
            }
        }
        assert(matrice@ =~= w);
    }
    matrice
}


/// The step `step1`, if it is one of the first `n`.
pub open spec fn single_source(step1: i32, n: int) -> Set<int> {
    Set::new(|k: int| 0 <= k < n && k == step1)
}

/// What a search from `step1` over the matrix `m` gives for `step2`: its record (chains of at
/// most `cap` links; the first record of `step2` in `necessity_run`), or, for a step out of the plan, a record of it as a goal, not necessary,
/// without path, of length `n + 1`.
pub open spec fn record_result(m: Seq<Seq<i32>>, plan: Seq<Op>, cap: int, step1: i32, step2: i32, res: Necessaire) -> bool {
    let n = plan.len() as int;
    if 0 <= step2 < n {
        &&& idx(res) == step2
        &&& entry_ok(m, n, single_source(step1, n), plan_records(plan), cap, res)
        &&& res.spec_long() == dist(m, n, single_source(step1, n), cap, step2 as int)
        &&& first_record(necessity_run(m, plan_records(plan), single_source(step1, n), (cap + 1) as u32), step2 as int) == Some(
            nec_view(res),
        )
    } else {
        &&& res.spec_opnec() == Resume::spec_new(None, step2)
        &&& !res.spec_nec()
        &&& res.spec_chemin() is None
        &&& res.spec_long() == n + 1
    }
}

/// What the indirect support analyses give for `step2`: its record in the shortest-chain search
/// from `step1` over the matrix `m` (chains of at most `n * n` links), or, for a step out of
/// the plan, a record of it as a goal, not necessary, without path, of length `n + 1`.
pub open spec fn indirect_result(m: Seq<Seq<i32>>, plan: Seq<Op>, step1: i32, step2: i32, res: Necessaire) -> bool {
    record_result(m, plan, (plan.len() * plan.len()) as int, step1, step2, res)
}

/// The initial records of a search from the step `step1`, with `inf` as the length of the
/// steps not reached.
fn initial_from(plan: &Vec<Op>, step1: i32, inf: u32) -> (res: Vec<Necessaire>)
    requires
        plan@.len() < i32::MAX,
        0 < inf,
    ensures
        init_ok(res@, plan@.len() as int, inf - 1),
        sources(res@, plan@.len() as int) == single_source(step1, plan@.len() as int),
        recs_of(res@) == plan_records(plan@),
{
    let length = plan.len();
    let mut atraite: Vec<Necessaire> = Vec::new();
    let mut count: usize = 0;
    while count < length
        invariant
            count <= length == plan@.len() < i32::MAX,
            0 < inf,
            atraite@.len() == count,
            forall|k: int| 0 <= k < count ==> {
                &&& idx(#[trigger] atraite@[k]) == k
                &&& atraite@[k].spec_opnec() == plan_records(plan@)[k]
                &&& atraite@[k].spec_chemin() is None
                &&& ((atraite@[k].spec_long() == 0 && atraite@[k].spec_nec() && k == step1) || (atraite@[k].spec_long() == inf
                    && !atraite@[k].spec_nec() && k != step1))
            },
        decreases length - count,
    {
        let step = newresume(plan[count], count as i32);
        proof {
            Resume::lemma_spec_new(Some(plan@[count as int]), count as i32);
        }
        let nec = if count as i32 == step1 {
            newnecgoal(step)
        } else {
            initnec(step, inf)
        };
        atraite.push(nec);
        count = count + 1;
    }
    proof {
        assert(sources(atraite@, length as int) =~= single_source(step1, length as int));
        assert(recs_of(atraite@) =~= plan_records(plan@));
    }
    atraite
}

/// The record of `step2` in the shortest-chain search from `step1` over `matrice`, with `inf`
/// as the length of the steps not reached.
fn record_from(matrice: &IntMatrix, plan: &Vec<Op>, step1: i32, step2: i32, inf: u32) -> (res: Necessaire)
    requires
        0 < plan@.len() < i32::MAX,
        plan@.len() < inf < u32::MAX,
        matrice.wf(),
        matrice@.len() > plan@.len(),
        matrice.spec_ncols() >= plan@.len(),
    ensures
        record_result(matrice@, plan@, inf - 1, step1, step2, res),
{
    let length = plan.len();
    let atraite = initial_from(plan, step1, inf);
    let mut traite = necessity_search(matrice, length, atraite, inf);
    if 0 <= step2 && (step2 as usize) < length {
        let p = position_of(&traite, step2 as usize);
        proof {
            assert(has_idx(traite@, step2 as int));
            let w = choose|w: int| 0 <= w < traite@.len() && idx(#[trigger] traite@[w]) == step2 as int;
            assert(p < traite@.len());
            let v = necs_view(traite@);
            assert forall|j: int| 0 <= j < p implies (#[trigger] v[j]).0.spec_numero() as int != step2 as int by {
                assert(idx(traite@[j]) != step2 as int);
            }
            lemma_first_record(v, step2 as int, p as int);
            assert(((inf - 1) + 1) as u32 == inf);
        }
        traite.remove(p)
    } else {
        let step = goalresume(step2);
        proof {
            Resume::lemma_spec_new(None, step2);
        }
        initnec(step, length as u32 + 1)
    }
}

/// The shortest-chain search from `step1` over the support matrix weighted by `predicat`, and
/// the record of `step2` in it.
fn support_indirect(
    step1: i32,
    step2: i32,
    plan: &Vec<Op>,
    ground: &GroundProblem,
    support: &IntMatrix,
    predicat: &Vec<SVId>,
    infini: i32,
    avantage: bool,
) -> (res: Necessaire)
    requires
        0 < plan@.len() < i32::MAX,
        plan@.len() * plan@.len() + 2 <= u32::MAX,
        plan_in(ground.operators@, plan@),
        support.wf(),
        support@.len() > plan@.len(),
        support.spec_ncols() >= plan@.len(),
    ensures
        indirect_result(
            weighted_seq(support@, support.spec_ncols() as int, ground.operators@, plan@, predicat@, infini, avantage),
            plan@,
            step1,
            step2,
            res,
        ),
{
    let length = plan.len();
    let l2 = length as u32;
    assert(l2 * l2 + 2 <= u32::MAX && l2 * l2 >= l2) by (nonlinear_arith)
        requires
            l2 == plan@.len(),
            l2 > 0,
            plan@.len() * plan@.len() + 2 <= u32::MAX,
    ;
    let matrice = weight_matrix(support, plan, &ground.operators, predicat, infini, avantage);
    let inf = l2 * l2 + 1;
    assert((inf - 1) as int == (length as int) * (length as int)) by (nonlinear_arith)
        requires
            inf == l2 * l2 + 1,
            l2 == length,
    ;
    record_from(&matrice, plan, step1, step2, inf)
}

/// The record of `step2` in the shortest-chain search from `step1` over the support matrix:
/// whether `step1` can be reached from `step2` through support links, and by which chain.
pub fn explicationsupport(plan: &Vec<Op>, support: &IntMatrix, step1: i32, step2: i32) -> (res: Necessaire)
    requires
        0 < plan@.len() < i32::MAX,
        support.wf(),
        support@.len() > plan@.len(),
        support.spec_ncols() >= plan@.len(),
    ensures
        record_result(support@, plan@, plan@.len() as int, step1, step2, res),
{
    record_from(support, plan, step1, step2, plan.len() as u32 + 1)
}

/// The record of `step2` in the shortest-chain search from `step1`, over the support matrix in
/// which the links through one of the variables `predicat` weigh `infini`.
pub fn supportindirectpoid(
    step1: i32,
    step2: i32,
    plan: &Vec<Op>,
    ground: &GroundProblem,
    support: &IntMatrix,
    predicat: &Vec<SVId>,
    infini: i32,
) -> (res: Necessaire)
    requires
        0 < plan@.len() < i32::MAX,
        plan@.len() * plan@.len() + 2 <= u32::MAX,
        plan_in(ground.operators@, plan@),
        support.wf(),
        support@.len() > plan@.len(),
        support.spec_ncols() >= plan@.len(),
    ensures
        indirect_result(
            weighted_seq(support@, support.spec_ncols() as int, ground.operators@, plan@, predicat@, infini, false),
            plan@,
            step1,
            step2,
            res,
        ),
{
    support_indirect(step1, step2, plan, ground, support, predicat, infini, false)
}

/// The record of `step2` in the shortest-chain search from `step1`, over the support matrix in
/// which the links that do not go through one of the variables `predicat` weigh `infini`.
pub fn supportindirectavantagepoid(
    step1: i32,
    step2: i32,
    plan: &Vec<Op>,
    ground: &GroundProblem,
    support: &IntMatrix,
    predicat: &Vec<SVId>,
    infini: i32,
) -> (res: Necessaire)
    requires
        0 < plan@.len() < i32::MAX,
        plan@.len() * plan@.len() + 2 <= u32::MAX,
        plan_in(ground.operators@, plan@),
        support.wf(),
        support@.len() > plan@.len(),
        support.spec_ncols() >= plan@.len(),
    ensures
        indirect_result(
            weighted_seq(support@, support.spec_ncols() as int, ground.operators@, plan@, predicat@, infini, true),
            plan@,
            step1,
            step2,
            res,
        ),
{
    support_indirect(step1, step2, plan, ground, support, predicat, infini, true)
}


/// Whether `menace` records a threat of step `step1` on step `step2` (an entry 1, -1 or -2).
pub open spec fn threatens(menace: Seq<Seq<i32>>, ncols: int, step1: i32, step2: i32) -> bool {
    0 <= step1 < menace.len() && 0 <= step2 < ncols && {
        let v = menace[step1 as int][step2 as int];
        v == 1 || v == -1 || v == -2
    }
}

/// Whether step `step1` threatens step `step2` according to the matrix of threats.
pub fn explicationmenacequestion(plan: &Vec<Op>, menace: &IntMatrix, support: &IntMatrix, step1: i32, step2: i32) -> (res: bool)
    requires
        menace.wf(),
    ensures
        res == threatens(menace@, menace.spec_ncols() as int, step1, step2),
{
    if step1 < 0 || step2 < 0 {
        return false;
    }
    match menace.get_opt(step1 as usize, step2 as usize) {
        None => false,
        Some(v) => v == 1 || v == -1 || v == -2,
    }
}

/// The first `i` from `i0` up to `last` such that step `i` supports step `s2` (an entry 1 in
/// `support`) and step `s1` must come before it (an entry -1 in `menace`).
pub open spec fn threatened_support(
    support: Seq<Seq<i32>>,
    sncols: int,
    menace: Seq<Seq<i32>>,
    mncols: int,
    s1: int,
    s2: int,
    i0: int,
    last: int,
) -> Option<int>
    decreases last + 1 - i0,
{
    if i0 > last || i0 < 0 {
        None
    } else if i0 < support.len() && s2 < sncols && support[i0][s2] == 1 && s1 < menace.len() && i0 < mncols
        && menace[s1][i0] == -1 {
        Some(i0)
    } else {
        threatened_support(support, sncols, menace, mncols, s1, s2, i0 + 1, last)
    }
}

/// The detail of a threat of step `step1` on step `step2`: the two steps, and, for a threat on a
/// support link (entry -2), the first support of `step2` that `step1` must come before.
pub open spec fn threat_detail(
    support: Seq<Seq<i32>>,
    sncols: int,
    menace: Seq<Seq<i32>>,
    mncols: int,
    n: int,
    step1: i32,
    step2: i32,
) -> Option<(usize, usize, Option<usize>)> {
    if 0 <= step1 < menace.len() && 0 <= step2 < mncols {
        let v = menace[step1 as int][step2 as int];
        if v == 1 || v == -1 {
            Some((step1 as usize, step2 as usize, None))
        } else if v == -2 {
            match threatened_support(support, sncols, menace, mncols, step1 as int, step2 as int, 0, n) {
                Some(i) => Some((step1 as usize, step2 as usize, Some(i as usize))),
                None => None,
            }
        } else {
            None
        }
    } else {
        None
    }
}

/// The detail of a threat of step `step1` on step `step2`, if there is one: for a threat on a
/// support link, the first support of `step2` (among the first `n + 1` rows of `support`) that
/// `step1` must come before.
pub fn explicationmenacequestiondetail(
    plan: &Vec<Op>,
    menace: &IntMatrix,
    support: &IntMatrix,
    step1: i32,
    step2: i32,
) -> (res: Option<(usize, usize, Option<usize>)>)
    requires
        menace.wf(),
        support.wf(),
        plan@.len() < u32::MAX,
        threatens(menace@, menace.spec_ncols() as int, step1, step2) && menace@[step1 as int][step2 as int] == -2
            ==> step2 < support.spec_ncols(),
    ensures
        res == threat_detail(
            support@,
            support.spec_ncols() as int,
            menace@,
            menace.spec_ncols() as int,
            plan@.len() as int,
            step1,
            step2,
        ),
{
    if step1 < 0 || step2 < 0 {
        return None;
    }
    let s1 = step1 as usize;
    let s2 = step2 as usize;
    let v = match menace.get_opt(s1, s2) {
        None => return None,
        Some(v) => v,
    };
    if v == 1 || v == -1 {
        return Some((s1, s2, None));
    }
    if v != -2 {
        return None;
    }
    let l2 = plan.len();
    let ghost goal = threatened_support(
        support@,
        support.spec_ncols() as int,
        menace@,
        menace.spec_ncols() as int,
        s1 as int,
        s2 as int,
        0,
        l2 as int,
    );
    assert(threat_detail(support@, support.spec_ncols() as int, menace@, menace.spec_ncols() as int, l2 as int, step1, step2)
        == match goal {
        Some(i) => Some((s1, s2, Some(i as usize))),
        None => None,
    });
    let mut i: usize = 0;
    while i <= l2
        invariant
            i <= l2 + 1,
            l2 < u32::MAX,
            l2 == plan@.len(),
            menace.wf(),
            support.wf(),
            threat_detail(support@, support.spec_ncols() as int, menace@, menace.spec_ncols() as int, l2 as int, step1, step2)
                == match goal {
                Some(i) => Some((s1, s2, Some(i as usize))),
                None => None,
            },
            goal == threatened_support(
                support@,
                support.spec_ncols() as int,
                menace@,
                menace.spec_ncols() as int,
                s1 as int,
                s2 as int,
                i as int,
                l2 as int,
            ),
        decreases l2 + 1 - i,
    {
        let sup = support.get_opt(i, s2);
        if sup == Some(1i32) {
            if menace.get_opt(s1, i) == Some(-1i32) {
                return Some((s1, s2, Some(i)));
            }
        }
        i = i + 1;
    }
    None
}

} // verus!
