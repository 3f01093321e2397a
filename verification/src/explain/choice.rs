//! Choice of the state variables that a question is about.
use vstd::prelude::*;
use crate::classical::state::{Op, Lit, SVId, State, OperatorV, Operators};
use crate::classical::GroundProblem;
use crate::explain::explain::plan_in;

verus! {

/// The variable of the literal at position `i` of the state, or of its last literal if `i` is
/// past its end.
pub fn choixpredicat(i: usize, initial_state: &State) -> (res: SVId)
    requires
        initial_state@.len() > 0,
    ensures
        res.id == if i < initial_state@.len() {
            i as int
        } else {
            initial_state@.len() - 1
        },
    decreases i,
{
    let l = initial_state.literals();
    if i < l.len() {
        l[i].var()
    } else {
        choixpredicat(i - 1, initial_state)
    }
}

/// The variables of the literals `lits`, in order.
pub open spec fn vars_of(lits: Seq<Lit>) -> Seq<SVId> {
    lits.map_values(|l: Lit| l.var)
}

/// Appends the variables of `lits` to `out`.
fn push_vars(out: &mut Vec<SVId>, lits: &[Lit])
    ensures
        final(out)@ == old(out)@ + vars_of(lits@),
{
    let ghost base = out@;
    let mut k: usize = 0;
    while k < lits.len()
        invariant
            k <= lits@.len(),
            out@ == base + vars_of(lits@.take(k as int)),
        decreases lits@.len() - k,
    {
        out.push(lits[k].var());
        assert(out@ =~= base + vars_of(lits@.take(k + 1)));
        k = k + 1;
    }
    assert(lits@.take(k as int) =~= lits@);
}

/// The variables of the preconditions, then of the effects, of step `i` of the plan.
pub fn choixpredaction(i: usize, plan: &Vec<Op>, ground: &GroundProblem) -> (res: Vec<SVId>)
    requires
        i < plan@.len(),
        plan_in(ground.operators@, plan@),
    ensures
        res@ == vars_of(ground.operators@[plan@[i as int].id as int].pre) + vars_of(
            ground.operators@[plan@[i as int].id as int].eff,
        ),
{
    let a = plan[i];
    let mut out: Vec<SVId> = Vec::new();
    push_vars(&mut out, ground.operators.preconditions(a));
    push_vars(&mut out, ground.operators.effects(a));
    out
}

/// The variables of the effects of the first `k` operators whose action (the first symbol of the
/// name) is `action`, in order.
pub open spec fn action_vars(ops: Seq<OperatorV>, action: usize, k: int) -> Seq<SVId>
    decreases k,
{
    if k <= 0 {
        seq![]
    } else {
        action_vars(ops, action, k - 1) + if ops[k - 1].name.len() > 0 && ops[k - 1].name[0] == action {
            vars_of(ops[k - 1].eff)
        } else {
            seq![]
        }
    }
}

/// The variables of the effects of all the operators whose action is `action`, in order.
fn effects_of_action(ops: &Operators, action: usize) -> (res: Vec<SVId>)
    ensures
        res@ == action_vars(ops@, action, ops@.len() as int),
{
    let mut out: Vec<SVId> = Vec::new();
    let mut k: usize = 0;
    while k < ops.size()
        invariant
            k <= ops@.len(),
            out@ == action_vars(ops@, action, k as int),
        decreases ops@.len() - k,
    {
        let op = Op::new(k);
        let name = ops.name(op);
        if name.len() > 0 && name[0] == action {
            push_vars(&mut out, ops.effects(op));
        }
        k = k + 1;
    }
    out
}

/// The variables of the effects of all the operators of the same action as step `i` of the
/// plan, in order of the operators.
pub fn choixpredaction2(i: usize, plan: &Vec<Op>, ground: &GroundProblem) -> (res: Vec<SVId>)
    requires
        i < plan@.len(),
        plan_in(ground.operators@, plan@),
        ground.operators@[plan@[i as int].id as int].name.len() > 0,
    ensures
        res@ == action_vars(
            ground.operators@,
            ground.operators@[plan@[i as int].id as int].name[0],
            ground.operators@.len() as int,
        ),
{
    let a = plan[i];
    let action = ground.operators.name(a)[0];
    effects_of_action(&ground.operators, action)
}

/// The variables of the effects of all the operators of the action `action` (the symbol of an
/// action name), in order of the operators; none when the name was not found.
pub fn choixpredaction3(action: Option<usize>, plan: &Vec<Op>, ground: &GroundProblem) -> (res: Vec<SVId>)
    ensures
        res@ == match action {
            Some(a) => action_vars(ground.operators@, a, ground.operators@.len() as int),
            None => seq![],
        },
{
    match action {
        Some(a) => effects_of_action(&ground.operators, a),
        None => Vec::new(),
    }
}

} // verus!
