//! Classical (STRIPS) states: boolean state variables, literals, ground operators.
use vstd::prelude::*;

verus! {

/// Identifier of a state variable (a boolean fluent).
#[derive(Debug, Clone, Copy, PartialEq, Eq, Structural, PartialOrd, Ord, Hash)]
pub struct SVId {
    pub id: usize,
}

/// Identifier of a ground operator.
#[derive(Debug, Clone, Copy, PartialEq, Eq, Structural, PartialOrd, Ord, Hash)]
pub struct Op {
    pub id: usize,
}

impl Op {
    /// Builds the operator identifier with the given index.
    pub fn new(id: usize) -> (res: Op)
        ensures
            res.id == id,
    {
        Op { id }
    }
}

/// A literal: a state variable and the value it takes.
#[derive(Debug, Clone, Copy, PartialEq, Eq, Structural, PartialOrd, Ord, Hash)]
pub struct Lit {
    pub var: SVId,
    pub val: bool,
}

impl Lit {
    /// The literal `sv = val`.
    pub fn new(sv: SVId, val: bool) -> (res: Lit)
        ensures
            res == (Lit { var: sv, val }),
    {
        Lit { var: sv, val }
    }

    /// The state variable of the literal.
    pub fn var(&self) -> (res: SVId)
        ensures
            res == self.var,
    {
        self.var
    }

    /// The value of the literal.
    pub fn val(&self) -> (res: bool)
        ensures
            res == self.val,
    {
        self.val
    }

    pub open spec fn spec_negate(self) -> Lit {
        Lit { var: self.var, val: !self.val }
    }

    /// The opposite literal: same variable, other value.
    pub fn negate(&self) -> (res: Lit)
        ensures
            res == self.spec_negate(),
    {
        Lit { var: self.var, val: !self.val }
    }
}

/// Whether the state `s` gives the value of `l` to its variable.
pub open spec fn entails(s: Seq<bool>, l: Lit) -> bool {
    l.var.id < s.len() && s[l.var.id as int] == l.val
}

/// Whether the state `s` satisfies every literal of `ls`.
pub open spec fn entails_all(s: Seq<bool>, ls: Seq<Lit>) -> bool {
    forall|i: int| 0 <= i < ls.len() ==> entails(s, #[trigger] ls[i])
}

/// The state `s` after setting each literal of `effs`, in order.
pub open spec fn apply(s: Seq<bool>, effs: Seq<Lit>) -> Seq<bool>
    decreases effs.len(),
{
    if effs.len() == 0 {
        s
    } else {
        let l = effs.last();
        apply(s, effs.drop_last()).update(l.var.id as int, l.val)
    }
}

/// Whether every literal of `ls` is about a variable below `n`.
pub open spec fn lits_in(ls: Seq<Lit>, n: nat) -> bool {
    forall|i: int| 0 <= i < ls.len() ==> (#[trigger] ls[i]).var.id < n
}

/// Applying effects sets each variable to the value of the last effect on it, and leaves a
/// variable on which no effect bears as it was.
pub proof fn law_apply_last_effect(s: Seq<bool>, effs: Seq<Lit>, v: int)
    requires
        lits_in(effs, s.len()),
        0 <= v < s.len(),
    ensures
        forall|p: int|
            0 <= p < effs.len() && (#[trigger] effs[p]).var.id == v && (forall|q: int| p < q < effs.len() ==> (#[trigger] effs[q]).var.id
                != v) ==> apply(s, effs)[v] == effs[p].val,
        (forall|q: int| 0 <= q < effs.len() ==> (#[trigger] effs[q]).var.id != v) ==> apply(s, effs)[v] == s[v],
    decreases effs.len(),
{
    if effs.len() > 0 {
        let d = effs.drop_last();
        let l = effs.last();
        assert(lits_in(d, s.len())) by {
            assert forall|i: int| 0 <= i < d.len() implies (#[trigger] d[i]).var.id < s.len() by {
                assert(d[i] == effs[i]);
            }
        }
        law_apply_last_effect(s, d, v);
        lemma_apply_len(s, d);
        assert(l == effs[effs.len() - 1]);
        assert forall|p: int|
            0 <= p < effs.len() && (#[trigger] effs[p]).var.id == v && (forall|q: int| p < q < effs.len() ==> (#[trigger] effs[q]).var.id
                != v) implies apply(s, effs)[v] == effs[p].val by {
            if p < effs.len() - 1 {
                assert(effs[effs.len() - 1].var.id != v);
                assert(d[p] == effs[p]);
                assert forall|q: int| p < q < d.len() implies (#[trigger] d[q]).var.id != v by {
                    assert(d[q] == effs[q]);
                    assert(effs[q].var.id != v);
                }
            }
        }
        if forall|q: int| 0 <= q < effs.len() ==> (#[trigger] effs[q]).var.id != v {
            assert(effs[effs.len() - 1].var.id != v);
            assert forall|q: int| 0 <= q < d.len() implies (#[trigger] d[q]).var.id != v by {
                assert(d[q] == effs[q]);
                assert(effs[q].var.id != v);
            }
        }
    }
}

/// Applying effects keeps the number of variables.
pub proof fn lemma_apply_len(s: Seq<bool>, effs: Seq<Lit>)
    requires
        lits_in(effs, s.len()),
    ensures
        apply(s, effs).len() == s.len(),
    decreases effs.len(),
{
    if effs.len() > 0 {
        lemma_apply_len(s, effs.drop_last());
    }
}

/// A state: the value of each state variable.
#[derive(Debug, Clone, PartialEq, Eq, Hash)]
pub struct State {
    svars: Vec<bool>,
}

impl View for State {
    type V = Seq<bool>;

    closed spec fn view(&self) -> Seq<bool> {
        self.svars@
    }
}

impl State {
    /// The state of `size` variables, all false.
    pub fn new(size: usize) -> (res: State)
        ensures
            res@ == Seq::new(size as nat, |i: int| false),
    {
        let mut svars: Vec<bool> = Vec::new();
        let mut i: usize = 0;
        while i < size
            invariant
                i <= size,
                svars@ =~= Seq::new(i as nat, |j: int| false),
            decreases size - i,
        {
            svars.push(false);
            i = i + 1;
        }
        State { svars }
    }

    /// A copy of this state.
    pub fn copy(&self) -> (res: State)
        ensures
            res@ == self@,
    {
        let mut svars: Vec<bool> = Vec::new();
        let mut i: usize = 0;
        while i < self.svars.len()
            invariant
                i <= self.svars.len(),
                svars@ =~= self.svars@.subrange(0, i as int),
            decreases self.svars.len() - i,
        {
            svars.push(self.svars[i]);
            i = i + 1;
        }
        assert(self.svars@.subrange(0, i as int) =~= self.svars@);
        State { svars }
    }

    /// Number of state variables.
    pub fn size(&self) -> (res: usize)
        ensures
            res == self@.len(),
    {
        self.svars.len()
    }

    /// Value of the variable `sv`.
    pub fn is_set(&self, sv: SVId) -> (res: bool)
        requires
            sv.id < self@.len(),
        ensures
            res == self@[sv.id as int],
    {
        self.svars[sv.id]
    }

    /// Sets the variable `sv` to `value`.
    pub fn set_to(&mut self, sv: SVId, value: bool)
        requires
            sv.id < old(self)@.len(),
        ensures
            final(self)@ == old(self)@.update(sv.id as int, value),
    {
        self.svars.set(sv.id, value);
    }

    /// Makes the literal `lit` true.
    pub fn set(&mut self, lit: Lit)
        requires
            lit.var.id < old(self)@.len(),
        ensures
            final(self)@ == old(self)@.update(lit.var.id as int, lit.val),
    {
        self.set_to(lit.var, lit.val);
    }

    /// Makes each literal of `lits` true, in order.
    pub fn set_all(&mut self, lits: &[Lit])
        requires
            lits_in(lits@, old(self)@.len()),
        ensures
            final(self)@ == apply(old(self)@, lits@),
            final(self)@.len() == old(self)@.len(),
    {
        let mut i: usize = 0;
        while i < lits.len()
            invariant
                i <= lits.len(),
                lits_in(lits@, old(self)@.len()),
                self@ == apply(old(self)@, lits@.subrange(0, i as int)),
                self@.len() == old(self)@.len(),
            decreases lits.len() - i,
        {
            proof {
                assert(lits@.subrange(0, i + 1).drop_last() =~= lits@.subrange(0, i as int));
            }
            self.set(lits[i]);
            i = i + 1;
        }
        assert(lits@.subrange(0, i as int) =~= lits@);
    }

    /// Whether the literal `lit` holds.
    pub fn entails(&self, lit: Lit) -> (res: bool)
        ensures
            res == entails(self@, lit),
    {
        lit.var.id < self.svars.len() && self.svars[lit.var.id] == lit.val
    }

    /// Whether every literal of `lits` holds.
    pub fn entails_all(&self, lits: &[Lit]) -> (res: bool)
        ensures
            res == entails_all(self@, lits@),
    {
        let mut i: usize = 0;
        while i < lits.len()
            invariant
                i <= lits.len(),
                forall|j: int| 0 <= j < i ==> entails(self@, #[trigger] lits@[j]),
            decreases lits.len() - i,
        {
            if !self.entails(lits[i]) {
                return false;
            }
            i = i + 1;
        }
        true
    }

    /// The literals that hold: one per state variable, in order.
    pub fn literals(&self) -> (res: Vec<Lit>)
        ensures
            res@.len() == self@.len(),
            forall|i: int| 0 <= i < self@.len() ==> #[trigger] res@[i] == (Lit { var: SVId { id: i as usize }, val: self@[i] }),
    {
        let mut res: Vec<Lit> = Vec::new();
        let mut i: usize = 0;
        while i < self.svars.len()
            invariant
                i <= self.svars.len(),
                res@.len() == i,
                forall|j: int| 0 <= j < i ==> #[trigger] res@[j] == (Lit { var: SVId { id: j as usize }, val: self@[j] }),
            decreases self.svars.len() - i,
        {
            res.push(Lit { var: SVId { id: i }, val: self.svars[i] });
            i = i + 1;
        }
        res
    }

    /// Whether two states give the same value to every variable.
    pub fn same(&self, other: &State) -> (res: bool)
        ensures
            res == (self@ == other@),
    {
        if self.svars.len() != other.svars.len() {
            return false;
        }
        let mut i: usize = 0;
        while i < self.svars.len()
            invariant
                i <= self.svars.len() == other.svars.len(),
                forall|j: int| 0 <= j < i ==> self@[j] == other@[j],
            decreases self.svars.len() - i,
        {
            if self.svars[i] != other.svars[i] {
                return false;
            }
            i = i + 1;
        }
        assert(self@ =~= other@);
        true
    }
}

/// A ground operator: its name (the symbol of its action, then those of its parameters), its
/// preconditions and its effects.
#[derive(Debug, Clone)]
pub struct Operator {
    pub name: Vec<usize>,
    pub precond: Vec<Lit>,
    pub effects: Vec<Lit>,
}

/// Mathematical value of an operator.
pub struct OperatorV {
    pub name: Seq<usize>,
    pub pre: Seq<Lit>,
    pub eff: Seq<Lit>,
}

/// A set of ground operators, each identified by its index.
#[derive(Debug, Clone)]
pub struct Operators {
    all: Vec<Operator>,
}

impl View for Operators {
    type V = Seq<OperatorV>;

    closed spec fn view(&self) -> Seq<OperatorV> {
        self.all@.map_values(|o: Operator| OperatorV { name: o.name@, pre: o.precond@, eff: o.effects@ })
    }
}

/// Whether every operator only speaks of variables below `n`.
pub open spec fn ops_wf(ops: Seq<OperatorV>, n: nat) -> bool {
    forall|i: int| 0 <= i < ops.len() ==> lits_in((#[trigger] ops[i]).pre, n) && lits_in(ops[i].eff, n)
}

/// Whether `op` is an operator of `ops` applicable in `s`.
pub open spec fn applicable(ops: Seq<OperatorV>, s: Seq<bool>, op: Op) -> bool {
    op.id < ops.len() && entails_all(s, ops[op.id as int].pre)
}

/// The state reached by applying the plan from `s`, if each of its operators is applicable in
/// turn.
pub open spec fn run_plan(ops: Seq<OperatorV>, s: Seq<bool>, plan: Seq<Op>) -> Option<Seq<bool>>
    decreases plan.len(),
{
    if plan.len() == 0 {
        Some(s)
    } else {
        match run_plan(ops, s, plan.drop_last()) {
            Some(t) => if applicable(ops, t, plan.last()) {
                Some(apply(t, ops[plan.last().id as int].eff))
            } else {
                None
            },
            None => None,
        }
    }
}

/// Whether the plan is applicable from `s` and leads to a state where the goals hold.
pub open spec fn achieves(ops: Seq<OperatorV>, s: Seq<bool>, plan: Seq<Op>, goals: Seq<Lit>) -> bool {
    run_plan(ops, s, plan) matches Some(t) && entails_all(t, goals)
}

/// Running the concatenation of two plans runs the first one, then the second one.
pub proof fn lemma_run_plan_concat(ops: Seq<OperatorV>, s: Seq<bool>, p1: Seq<Op>, p2: Seq<Op>)
    ensures
        run_plan(ops, s, p1 + p2) == match run_plan(ops, s, p1) {
            Some(t) => run_plan(ops, t, p2),
            None => None,
        },
    decreases p2.len(),
{
    if p2.len() == 0 {
        assert(p1 + p2 =~= p1);
    } else {
        lemma_run_plan_concat(ops, s, p1, p2.drop_last());
        assert((p1 + p2).drop_last() =~= p1 + p2.drop_last());
        assert((p1 + p2).last() == p2.last());
        if let Some(t) = run_plan(ops, s, p1) {
        } else {
            lemma_run_plan_none(ops, s, p1, p2);
        }
    }
}

proof fn lemma_run_plan_none(ops: Seq<OperatorV>, s: Seq<bool>, p1: Seq<Op>, p2: Seq<Op>)
    requires
        run_plan(ops, s, p1) is None,
    ensures
        run_plan(ops, s, p1 + p2) is None,
    decreases p2.len(),
{
    if p2.len() == 0 {
        assert(p1 + p2 =~= p1);
    } else {
        lemma_run_plan_none(ops, s, p1, p2.drop_last());
        assert((p1 + p2).drop_last() =~= p1 + p2.drop_last());
    }
}

/// Running a plan keeps the number of variables.
pub proof fn lemma_run_plan_len(ops: Seq<OperatorV>, s: Seq<bool>, plan: Seq<Op>)
    requires
        ops_wf(ops, s.len()),
    ensures
        run_plan(ops, s, plan) matches Some(t) ==> t.len() == s.len(),
    decreases plan.len(),
{
    if plan.len() > 0 {
        lemma_run_plan_len(ops, s, plan.drop_last());
        if let Some(t) = run_plan(ops, s, plan.drop_last()) {
            if applicable(ops, t, plan.last()) {
                lemma_apply_len(t, ops[plan.last().id as int].eff);
            }
        }
    }
}

impl Operators {
    /// No operator.
    pub fn new() -> (res: Operators)
        ensures
            res@.len() == 0,
    {
        Operators { all: Vec::new() }
    }

    /// Adds an operator; it is identified by the returned index.
    pub fn push(&mut self, o: Operator) -> (res: Op)
        ensures
            final(self)@ == old(self)@.push(OperatorV { name: o.name@, pre: o.precond@, eff: o.effects@ }),
            res.id == old(self)@.len(),
    {
        let id = self.all.len();
        self.all.push(o);
        assert(self@ =~= old(self)@.push(OperatorV { name: o.name@, pre: o.precond@, eff: o.effects@ }));
        Op { id }
    }

    /// Number of operators.
    pub fn size(&self) -> (res: usize)
        ensures
            res == self@.len(),
    {
        self.all.len()
    }

    /// The preconditions of `op`.
    pub fn preconditions(&self, op: Op) -> (res: &[Lit])
        requires
            op.id < self@.len(),
        ensures
            res@ == self@[op.id as int].pre,
    {
        self.all[op.id].precond.as_slice()
    }

    /// The name of `op`: the symbol of its action, then those of its parameters.
    pub fn name(&self, op: Op) -> (res: &[usize])
        requires
            op.id < self@.len(),
        ensures
            res@ == self@[op.id as int].name,
    {
        self.all[op.id].name.as_slice()
    }

    /// The effects of `op`.
    pub fn effects(&self, op: Op) -> (res: &[Lit])
        requires
            op.id < self@.len(),
        ensures
            res@ == self@[op.id as int].eff,
    {
        self.all[op.id].effects.as_slice()
    }

    /// The operators that have `lit` among their effects, in increasing order.
    pub fn achievers_of(&self, lit: Lit) -> (res: Vec<Op>)
        ensures
            forall|i: int| 0 <= i < res@.len() ==> (#[trigger] res@[i]).id < self@.len() && self@[res@[i].id as int].eff.contains(lit),
            forall|i: int, j: int| 0 <= i < j < res@.len() ==> res@[i].id < res@[j].id,
            forall|k: int| 0 <= k < self@.len() && #[trigger] self@[k].eff.contains(lit) ==> res@.contains(Op { id: k as usize }),
    {
        let mut res: Vec<Op> = Vec::new();
        let mut k: usize = 0;
        while k < self.all.len()
            invariant
                k <= self.all.len(),
                self@.len() == self.all@.len(),
                forall|i: int| 0 <= i < res@.len() ==> (#[trigger] res@[i]).id < k && self@[res@[i].id as int].eff.contains(lit),
                forall|i: int, j: int| 0 <= i < j < res@.len() ==> res@[i].id < res@[j].id,
                forall|m: int| 0 <= m < k && #[trigger] self@[m].eff.contains(lit) ==> res@.contains(Op { id: m as usize }),
            decreases self.all.len() - k,
        {
            let effs = self.all[k].effects.as_slice();
            let mut found = false;
            let mut j: usize = 0;
            while j < effs.len()
                invariant
                    j <= effs.len(),
                    found == (exists|m: int| 0 <= m < j && effs@[m] == lit),
                decreases effs.len() - j,
            {
                if effs[j] == lit {
                    found = true;
                }
                j = j + 1;
            }
            proof {
                assert(self@[k as int].eff == effs@);
                if found {
                    let m = choose|m: int| 0 <= m < j && effs@[m] == lit;
                    assert(effs@.contains(lit));
                } else {
                    assert(!effs@.contains(lit));
                }
            }
            if found {
                let ghost old_res = res@;
                res.push(Op { id: k });
                proof {
                    assert forall|m: int| 0 <= m < k + 1 && #[trigger] self@[m].eff.contains(lit) implies res@.contains(Op { id: m as usize }) by {
                        if m < k {
                            let idx = choose|idx: int| 0 <= idx < old_res.len() && old_res[idx] == Op { id: m as usize };
                            assert(res@[idx] == Op { id: m as usize });
                        } else {
                            assert(res@[res@.len() - 1] == Op { id: m as usize });
                        }
                    }
                }
            }
            k = k + 1;
        }
        res
    }
}

/// Every sequence of `n` booleans.
pub open spec fn bool_seqs(n: nat) -> Set<Seq<bool>> {
    Set::new(|s: Seq<bool>| s.len() == n)
}

/// There are finitely many sequences of `n` booleans.
pub proof fn lemma_bool_seqs_finite(n: nat)
    ensures
        bool_seqs(n).finite(),
    decreases n,
{
    if n == 0 {
        assert forall|s: Seq<bool>| #[trigger] bool_seqs(0).contains(s) implies s == Seq::<bool>::empty() by {
            assert(s =~= Seq::<bool>::empty());
        }
        assert(bool_seqs(0) =~= Set::empty().insert(Seq::<bool>::empty()));
    } else {
        let m = (n - 1) as nat;
        lemma_bool_seqs_finite(m);
        let f = |s: Seq<bool>| s.push(false);
        let t = |s: Seq<bool>| s.push(true);
        bool_seqs(m).lemma_map_finite(f);
        bool_seqs(m).lemma_map_finite(t);
        assert forall|s: Seq<bool>| #[trigger] bool_seqs(n).contains(s) implies bool_seqs(m).map(f).union(bool_seqs(m).map(t)).contains(s) by {
            let p = s.drop_last();
            assert(bool_seqs(m).contains(p));
            if s.last() {
                assert(s =~= t(p));
                assert(bool_seqs(m).map(t).contains(s));
            } else {
                assert(s =~= f(p));
                assert(bool_seqs(m).map(f).contains(s));
            }
        }
        assert(bool_seqs(n).subset_of(bool_seqs(m).map(f).union(bool_seqs(m).map(t))));
        vstd::set_lib::lemma_set_subset_finite(bool_seqs(m).map(f).union(bool_seqs(m).map(t)), bool_seqs(n));
    }
}

/// A duplicate-free sequence of states of `n` variables has at most as many elements as there
/// are such states.
pub proof fn lemma_distinct_states_bound(states: Seq<Seq<bool>>, n: nat)
    requires
        states.no_duplicates(),
        forall|i: int| 0 <= i < states.len() ==> (#[trigger] states[i]).len() == n,
    ensures
        bool_seqs(n).finite(),
        states.len() <= bool_seqs(n).len(),
{
    lemma_bool_seqs_finite(n);
    states.unique_seq_to_set();
    assert(states.to_set().subset_of(bool_seqs(n)));
    vstd::set_lib::lemma_len_subset(states.to_set(), bool_seqs(n));
}

} // verus!
