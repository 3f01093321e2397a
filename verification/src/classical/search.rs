//! Plan search: weighted A* guided by h^add, with lookahead plans built from relaxed plans.
use vstd::prelude::*;
use crate::classical::heuristics::{Cost, HAddResult, INF, hadd, hadd_ensures, lemma_inf_unreachable, lit_index};
use crate::classical::state::{
    Lit, Op, Operators, OperatorV, State, achieves, applicable, apply, entails, entails_all,
    lemma_run_plan_concat, lemma_run_plan_len, lits_in, ops_wf, run_plan,
};

verus! {

/// A node of the search space. Nodes live in an arena (`Vec<Node>`); the parent of a node is
/// designated by its index there, and always comes before the node.
pub struct Node {
    pub state: State,
    pub parent: Option<usize>,
    /// Steps added by this node with respect to its parent.
    pub steps: Vec<Op>,
    /// Total plan length, ancestors included (saturates at `u32::MAX`).
    pub plan_length: u32,
    /// Heuristic evaluation of the cost of a solution reachable from this node.
    pub heuristic: Cost,
}

/// The plan leading to the node of index `i` of the arena: the plan of its parent, then its
/// own steps.
pub open spec fn plan_at(nodes: Seq<Node>, i: int) -> Seq<Op>
    decreases i,
{
    if 0 <= i < nodes.len() {
        match nodes[i].parent {
            Some(p) => if p < i {
                plan_at(nodes, p as int) + nodes[i].steps@
            } else {
                nodes[i].steps@
            },
            None => nodes[i].steps@,
        }
    } else {
        seq![]
    }
}

/// The plan leading to `n`, whose parent (if any) is in the arena.
pub open spec fn plan_of(nodes: Seq<Node>, n: Node) -> Seq<Op> {
    match n.parent {
        Some(p) => plan_at(nodes, p as int) + n.steps@,
        None => n.steps@,
    }
}

/// Every node of the arena comes after its parent and holds the state its plan leads to.
pub open spec fn tree_ok(ops: Seq<OperatorV>, init: Seq<bool>, nodes: Seq<Node>) -> bool {
    forall|i: int|
        0 <= i < nodes.len() ==> ((#[trigger] nodes[i]).parent matches Some(p) ==> p < i) && run_plan(
            ops,
            init,
            plan_at(nodes, i),
        ) == Some(nodes[i].state@)
}

/// `n`'s parent is in the arena and `n` holds the state its plan leads to.
pub open spec fn node_ok(ops: Seq<OperatorV>, init: Seq<bool>, nodes: Seq<Node>, n: Node) -> bool {
    &&& n.parent matches Some(p) ==> p < nodes.len()
    &&& run_plan(ops, init, plan_of(nodes, n)) == Some(n.state@)
}

/// Adding a node to the arena does not change the plans of the nodes already there.
pub proof fn lemma_plan_at_push(nodes: Seq<Node>, x: Node, i: int)
    requires
        0 <= i < nodes.len(),
    ensures
        plan_at(nodes.push(x), i) == plan_at(nodes, i),
    decreases i,
{
    assert(nodes.push(x)[i] == nodes[i]);
    if let Some(p) = nodes[i].parent {
        if p < i {
            lemma_plan_at_push(nodes, x, p as int);
        }
    }
}

/// The plan of the last node pushed on the arena is its plan as a standalone node.
pub proof fn lemma_plan_at_last(nodes: Seq<Node>, x: Node)
    requires
        x.parent matches Some(p) ==> p < nodes.len(),
    ensures
        plan_at(nodes.push(x), nodes.len() as int) == plan_of(nodes, x),
{
    let n2 = nodes.push(x);
    assert(n2[nodes.len() as int] == x);
    if let Some(p) = x.parent {
        lemma_plan_at_push(nodes, x, p as int);
    }
}

/// Pushing a valid node keeps the arena valid.
pub proof fn lemma_tree_push(ops: Seq<OperatorV>, init: Seq<bool>, nodes: Seq<Node>, x: Node)
    requires
        tree_ok(ops, init, nodes),
        node_ok(ops, init, nodes, x),
    ensures
        tree_ok(ops, init, nodes.push(x)),
{
    let n2 = nodes.push(x);
    assert forall|i: int| 0 <= i < n2.len() implies ((#[trigger] n2[i]).parent matches Some(p) ==> p < i) && run_plan(
        ops,
        init,
        plan_at(n2, i),
    ) == Some(n2[i].state@) by {
        if i < nodes.len() {
            lemma_plan_at_push(nodes, x, i);
            assert(n2[i] == nodes[i]);
        } else {
            lemma_plan_at_last(nodes, x);
        }
    }
}

impl Node {
    /// The complete plan leading to this node: the steps of its ancestors, then its own.
    pub fn extract_plan(&self, nodes: &Vec<Node>) -> (res: Vec<Op>)
        requires
            forall|i: int| 0 <= i < nodes@.len() ==> ((#[trigger] nodes@[i]).parent matches Some(p) ==> p < i),
            self.parent matches Some(p) ==> p < nodes@.len(),
        ensures
            res@ == plan_of(nodes@, *self),
    {
        // indices of the ancestors, from the parent up to the root
        let mut chain: Vec<usize> = Vec::new();
        let mut cur = self.parent;
        while cur.is_some()
            invariant
                forall|i: int| 0 <= i < nodes@.len() ==> ((#[trigger] nodes@[i]).parent matches Some(p) ==> p < i),
                cur matches Some(p) ==> p < nodes@.len(),
                chain@.len() == 0 ==> cur == self.parent,
                chain@.len() > 0 ==> self.parent == Some(chain@[0]),
                forall|k: int| 0 <= k < chain@.len() ==> (#[trigger] chain@[k]) < nodes@.len(),
                forall|k: int| 0 <= k < chain@.len() - 1 ==> nodes@[#[trigger] chain@[k] as int].parent == Some(chain@[k + 1]),
                chain@.len() > 0 ==> nodes@[chain@.last() as int].parent == cur,
            decreases match cur {
                Some(p) => p + 1,
                None => 0,
            },
        {
            let p = cur.unwrap();
            chain.push(p);
            cur = nodes[p].parent;
        }
        // concatenate the steps from the root down
        let mut res: Vec<Op> = Vec::new();
        let mut k = chain.len();
        while k > 0
            invariant
                k <= chain@.len(),
                forall|i: int| 0 <= i < nodes@.len() ==> ((#[trigger] nodes@[i]).parent matches Some(p) ==> p < i),
                forall|m: int| 0 <= m < chain@.len() ==> (#[trigger] chain@[m]) < nodes@.len(),
                forall|m: int| 0 <= m < chain@.len() - 1 ==> nodes@[#[trigger] chain@[m] as int].parent == Some(chain@[m + 1]),
                chain@.len() > 0 ==> nodes@[chain@.last() as int].parent is None,
                k == chain@.len() ==> res@.len() == 0,
                k < chain@.len() ==> res@ == plan_at(nodes@, chain@[k as int] as int),
            decreases k,
        {
            k = k - 1;
            let idx = chain[k];
            let steps = &nodes[idx].steps;
            let ghost before = res@;
            let mut j: usize = 0;
            while j < steps.len()
                invariant
                    j <= steps@.len(),
                    res@ == before + steps@.subrange(0, j as int),
                decreases steps@.len() - j,
            {
                res.push(steps[j]);
                j = j + 1;
                assert(res@ =~= before + steps@.subrange(0, j as int));
            }
            proof {
                assert(steps@.subrange(0, j as int) =~= steps@);
                if k + 1 < chain@.len() {
                    assert(nodes@[idx as int].parent == Some(chain@[k + 1]));
                    assert(chain@[k + 1] < idx);
                } else {
                    assert(before.len() == 0);
                    assert(before + steps@ =~= steps@);
                }
            }
        }
        let ghost before = res@;
        let mut j: usize = 0;
        while j < self.steps.len()
            invariant
                j <= self.steps@.len(),
                res@ == before + self.steps@.subrange(0, j as int),
            decreases self.steps@.len() - j,
        {
            res.push(self.steps[j]);
            j = j + 1;
            assert(res@ =~= before + self.steps@.subrange(0, j as int));
        }
        proof {
            assert(self.steps@.subrange(0, j as int) =~= self.steps@);
            if chain@.len() == 0 {
                assert(self.parent is None);
                assert(before + self.steps@ =~= self.steps@);
            }
        }
        res
    }
}

/// Settings of the search.
pub struct Cfg {
    /// Weight given to the heuristic in the weighted A* search.
    pub h_weight: Cost,
    /// Whether to project candidate states down the search tree with lookahead plans.
    pub use_lookahead: bool,
}

impl Cfg {
    /// Weight 3, with lookahead.
    pub fn default() -> (res: Cfg)
        ensures
            res.h_weight == 3,
            res.use_lookahead,
    {
        Cfg { h_weight: 3, use_lookahead: true }
    }
}


/// Whether `ops` are the operators the costs were computed for, over `n` variables.
pub open spec fn costs_fit(costs: HAddResult, ops: Seq<OperatorV>, n: nat) -> bool {
    costs.dims() == (n, ops.len())
}

/// Whether `op` can replace `supporter` in a relaxed plan to support `supported`: it is
/// applicable in `s` and achieves a precondition of `supported` that `supporter` achieves.
pub open spec fn is_replacement(ops: Seq<OperatorV>, s: Seq<bool>, supporter: Op, supported: Op, op: Op) -> bool {
    &&& applicable(ops, s, op)
    &&& exists|l: Lit|
        #![trigger ops[op.id as int].eff.contains(l)]
        ops[supporter.id as int].eff.contains(l) && ops[supported.id as int].pre.contains(l)
            && ops[op.id as int].eff.contains(l)
}

fn lits_contain(ls: &[Lit], l: Lit) -> (res: bool)
    ensures
        res == ls@.contains(l),
{
    let mut i: usize = 0;
    while i < ls.len()
        invariant
            i <= ls.len(),
            forall|j: int| 0 <= j < i ==> ls@[j] != l,
        decreases ls.len() - i,
    {
        if ls[i] == l {
            return true;
        }
        i = i + 1;
    }
    false
}

/// Finds an operator applicable in `state` that achieves a precondition of `supported` that
/// `supporter` also achieves, of least cost (the first one met, going through the effects of
/// `supporter` and then the achievers of each, in order).
fn find_applicable_supporting_replacement(
    supporter: Op,
    supported: Op,
    operators: &Operators,
    state: &State,
    op_cost: &HAddResult,
) -> (res: Option<Op>)
    requires
        supporter.id < operators@.len(),
        supported.id < operators@.len(),
        !entails_all(state@, operators@[supporter.id as int].pre),
        costs_fit(*op_cost, operators@, state@.len()),
    ensures
        match res {
            Some(op) => is_replacement(operators@, state@, supporter, supported, op) && forall|o: Op|
                #[trigger] is_replacement(operators@, state@, supporter, supported, o)
                    ==> op_cost.spec_op_cost(op) <= op_cost.spec_op_cost(o),
            None => forall|o: Op| !#[trigger] is_replacement(operators@, state@, supporter, supported, o),
        },
{
    let aj_cond = operators.preconditions(supported);
    let effs = operators.effects(supporter);
    let mut best: Option<Op> = None;
    let mut best_cost: Cost = 0;
    let mut i: usize = 0;
    while i < effs.len()
        invariant
            i <= effs@.len(),
            effs@ == operators@[supporter.id as int].eff,
            aj_cond@ == operators@[supported.id as int].pre,
            costs_fit(*op_cost, operators@, state@.len()),
            best matches Some(op) ==> is_replacement(operators@, state@, supporter, supported, op)
                && best_cost == op_cost.spec_op_cost(op),
            forall|o: Op|
                #[trigger] is_replacement(operators@, state@, supporter, supported, o) && (exists|k: int|
                    0 <= k < i && aj_cond@.contains(effs@[k]) && operators@[o.id as int].eff.contains(effs@[k]))
                    ==> (best matches Some(b) && op_cost.spec_op_cost(b) <= op_cost.spec_op_cost(o)),
        decreases effs@.len() - i,
    {
        let lit = effs[i];
        if lits_contain(aj_cond, lit) {
            let achievers = operators.achievers_of(lit);
            let mut j: usize = 0;
            while j < achievers.len()
                invariant
                    j <= achievers@.len(),
                    i < effs@.len(),
                    lit == effs@[i as int],
                    aj_cond@.contains(lit),
                    effs@ == operators@[supporter.id as int].eff,
                    aj_cond@ == operators@[supported.id as int].pre,
                    costs_fit(*op_cost, operators@, state@.len()),
                    forall|m: int| 0 <= m < achievers@.len() ==> (#[trigger] achievers@[m]).id < operators@.len()
                        && operators@[achievers@[m].id as int].eff.contains(lit),
                    forall|k: int| 0 <= k < operators@.len() && #[trigger] operators@[k].eff.contains(lit)
                        ==> achievers@.contains(Op { id: k as usize }),
                    best matches Some(op) ==> is_replacement(operators@, state@, supporter, supported, op)
                        && best_cost == op_cost.spec_op_cost(op),
                    forall|o: Op|
                        #[trigger] is_replacement(operators@, state@, supporter, supported, o) && (exists|k: int|
                            0 <= k < i && aj_cond@.contains(effs@[k]) && operators@[o.id as int].eff.contains(effs@[k]))
                            ==> (best matches Some(b) && op_cost.spec_op_cost(b) <= op_cost.spec_op_cost(o)),
                    forall|m: int| 0 <= m < j && #[trigger] applicable(operators@, state@, achievers@[m])
                        ==> (best matches Some(b) && op_cost.spec_op_cost(b) <= op_cost.spec_op_cost(achievers@[m])),
                decreases achievers@.len() - j,
            {
                let op = achievers[j];
                if state.entails_all(operators.preconditions(op)) {
                    let c = op_cost.operator_cost(op);
                    proof {
                        assert(operators@[op.id as int].eff.contains(lit));
                        assert(is_replacement(operators@, state@, supporter, supported, op));
                    }
                    match best {
                        None => {
                            best = Some(op);
                            best_cost = c;
                        },
                        Some(_) => {
                            if c < best_cost {
                                best = Some(op);
                                best_cost = c;
                            }
                        },
                    }
                }
                j = j + 1;
            }
            proof {
                assert forall|o: Op|
                    #[trigger] is_replacement(operators@, state@, supporter, supported, o) && (exists|k: int|
                        0 <= k < i + 1 && aj_cond@.contains(effs@[k]) && operators@[o.id as int].eff.contains(effs@[k]))
                        implies (best matches Some(b) && op_cost.spec_op_cost(b) <= op_cost.spec_op_cost(o)) by {
                    let k = choose|k: int| 0 <= k < i + 1 && aj_cond@.contains(effs@[k]) && operators@[o.id as int].eff.contains(effs@[k]);
                    if k == i {
                        assert(operators@[o.id as int].eff.contains(lit));
                        assert(achievers@.contains(Op { id: o.id }));
                        let m = choose|m: int| 0 <= m < achievers@.len() && achievers@[m] == Op { id: o.id };
                        assert(applicable(operators@, state@, achievers@[m]));
                    }
                }
            }
        } else {
            proof {
                assert forall|o: Op|
                    #[trigger] is_replacement(operators@, state@, supporter, supported, o) && (exists|k: int|
                        0 <= k < i + 1 && aj_cond@.contains(effs@[k]) && operators@[o.id as int].eff.contains(effs@[k]))
                        implies (best matches Some(b) && op_cost.spec_op_cost(b) <= op_cost.spec_op_cost(o)) by {
                    let k = choose|k: int| 0 <= k < i + 1 && aj_cond@.contains(effs@[k]) && operators@[o.id as int].eff.contains(effs@[k]);
                    assert(k != i);
                }
            }
        }
        i = i + 1;
    }
    proof {
        assert forall|o: Op| #[trigger] is_replacement(operators@, state@, supporter, supported, o) implies
            best matches Some(b) && op_cost.spec_op_cost(b) <= op_cost.spec_op_cost(o) by {
            let l = choose|l: Lit| #![trigger operators@[o.id as int].eff.contains(l)]
                operators@[supporter.id as int].eff.contains(l) && operators@[supported.id as int].pre.contains(l)
                    && operators@[o.id as int].eff.contains(l);
            let k = choose|k: int| 0 <= k < effs@.len() && effs@[k] == l;
            assert(aj_cond@.contains(effs@[k]));
        }
    }
    best
}


/// Result of comparing two operators.
#[derive(Debug, Clone, Copy, PartialEq, Eq, Structural)]
pub enum Order {
    Less,
    Equal,
    Greater,
}

/// Whether an effect of `a` is the negation of a precondition of `b`.
pub open spec fn deletes_pre(ops: Seq<OperatorV>, a: Op, b: Op) -> bool {
    exists|i: int| 0 <= i < ops[a.id as int].eff.len() && ops[b.id as int].pre.contains(#[trigger] ops[a.id as int].eff[i].spec_negate())
}

#[verifier::opaque]
/// Order of the operators of a relaxed plan: cheaper first; at equal cost, the one whose
/// preconditions the other deletes first (unless each deletes the other's); then by index.
pub open spec fn relaxed_order(ops: Seq<OperatorV>, costs: HAddResult, a: Op, b: Op) -> Order {
    let ca = costs.spec_op_cost(a);
    let cb = costs.spec_op_cost(b);
    if ca < cb {
        Order::Less
    } else if ca > cb {
        Order::Greater
    } else {
        let b_deletes_a = deletes_pre(ops, b, a);
        let a_deletes_b = deletes_pre(ops, a, b);
        if b_deletes_a && !a_deletes_b {
            Order::Less
        } else if a_deletes_b && !b_deletes_a {
            Order::Greater
        } else if a.id < b.id {
            Order::Less
        } else if a.id > b.id {
            Order::Greater
        } else {
            Order::Equal
        }
    }
}

/// The order is antisymmetric.
pub proof fn lemma_relaxed_order_antisym(ops: Seq<OperatorV>, costs: HAddResult, a: Op, b: Op)
    ensures
        relaxed_order(ops, costs, a, b) == Order::Greater ==> relaxed_order(ops, costs, b, a) == Order::Less,
{
    reveal(relaxed_order);
}

fn deletes_pre_exec(operators: &Operators, a: Op, b: Op) -> (res: bool)
    requires
        a.id < operators@.len(),
        b.id < operators@.len(),
    ensures
        res == deletes_pre(operators@, a, b),
{
    let effs = operators.effects(a);
    let pre = operators.preconditions(b);
    let mut i: usize = 0;
    while i < effs.len()
        invariant
            i <= effs@.len(),
            effs@ == operators@[a.id as int].eff,
            pre@ == operators@[b.id as int].pre,
            forall|k: int| 0 <= k < i ==> !pre@.contains(#[trigger] effs@[k].spec_negate()),
        decreases effs@.len() - i,
    {
        if lits_contain(pre, effs[i].negate()) {
            return true;
        }
        i = i + 1;
    }
    false
}

fn relaxed_order_exec(operators: &Operators, costs: &HAddResult, a: Op, b: Op) -> (res: Order)
    requires
        a.id < operators@.len(),
        b.id < operators@.len(),
        costs.dims().1 == operators@.len(),
    ensures
        res == relaxed_order(operators@, *costs, a, b),
{
    reveal(relaxed_order);
    let ca = costs.operator_cost(a);
    let cb = costs.operator_cost(b);
    if ca < cb {
        Order::Less
    } else if ca > cb {
        Order::Greater
    } else {
        let b_deletes_a = deletes_pre_exec(operators, b, a);
        let a_deletes_b = deletes_pre_exec(operators, a, b);
        if b_deletes_a && !a_deletes_b {
            Order::Less
        } else if a_deletes_b && !b_deletes_a {
            Order::Greater
        } else if a.id < b.id {
            Order::Less
        } else if a.id > b.id {
            Order::Greater
        } else {
            Order::Equal
        }
    }
}

/// No operator of the sequence comes after the next one in the relaxed-plan order.
pub open spec fn ordered(ops: Seq<OperatorV>, costs: HAddResult, v: Seq<Op>) -> bool {
    forall|k: int| 0 <= k < v.len() - 1 ==> #[trigger] relaxed_order(ops, costs, v[k], v[k + 1]) != Order::Greater
}

proof fn lemma_swap_keeps(before: Seq<Op>, after: Seq<Op>, j: int, orig: Seq<Op>)
    requires
        0 < j < before.len(),
        after == before.update(j - 1, before[j]).update(j, before[j - 1]),
        before.no_duplicates(),
        forall|o: Op| before.contains(o) <==> orig.contains(o),
    ensures
        after.no_duplicates(),
        forall|o: Op| after.contains(o) <==> orig.contains(o),
        after.len() == before.len(),
        forall|k: int| 0 <= k < after.len() && k != j - 1 && k != j ==> after[k] == before[k],
        after[j - 1] == before[j],
        after[j] == before[j - 1],
{
    assert forall|a: int, b: int| 0 <= a < b < after.len() implies after[a] != after[b] by {
        let sa = if a == j - 1 { j } else if a == j { j - 1 } else { a };
        let sb = if b == j - 1 { j } else if b == j { j - 1 } else { b };
        assert(after[a] == before[sa]);
        assert(after[b] == before[sb]);
        assert(sa != sb);
    }
    assert forall|o: Op| after.contains(o) <==> orig.contains(o) by {
        if after.contains(o) {
            let a = choose|a: int| 0 <= a < after.len() && after[a] == o;
            let sa = if a == j - 1 { j } else if a == j { j - 1 } else { a };
            assert(before[sa] == o);
            assert(before.contains(o));
        }
        if before.contains(o) {
            let a = choose|a: int| 0 <= a < before.len() && before[a] == o;
            let sa = if a == j - 1 { j } else if a == j { j - 1 } else { a };
            assert(after[sa] == o);
        }
    }
}

/// Sorts by the relaxed-plan order (insertion sort, stable).
fn sort_relaxed(v: &mut Vec<Op>, operators: &Operators, costs: &HAddResult)
    requires
        forall|k: int| 0 <= k < old(v)@.len() ==> (#[trigger] old(v)@[k]).id < operators@.len(),
        old(v)@.no_duplicates(),
        costs.dims().1 == operators@.len(),
    ensures
        final(v)@.len() == old(v)@.len(),
        final(v)@.no_duplicates(),
        forall|k: int| 0 <= k < final(v)@.len() ==> (#[trigger] final(v)@[k]).id < operators@.len(),
        forall|o: Op| final(v)@.contains(o) <==> old(v)@.contains(o),
        ordered(operators@, *costs, final(v)@),
{
    let ghost orig = v@;
    let n = v.len();
    if n == 0 {
        return;
    }
    let mut i: usize = 1;
    while i < n
        invariant
            1 <= i <= n == v@.len() == orig.len(),
            costs.dims().1 == operators@.len(),
            forall|k: int| 0 <= k < n ==> (#[trigger] v@[k]).id < operators@.len(),
            v@.no_duplicates(),
            forall|o: Op| v@.contains(o) <==> orig.contains(o),
            forall|k: int| 0 <= k < i - 1 ==> #[trigger] relaxed_order(operators@, *costs, v@[k], v@[k + 1]) != Order::Greater,
        decreases n - i,
    {
        let mut j: usize = i;
        let mut go = relaxed_order_exec(operators, costs, v[j - 1], v[j]) == Order::Greater;
        while go
            invariant
                go == (j > 0 && relaxed_order(operators@, *costs, v@[j - 1], v@[j as int]) == Order::Greater),
                0 <= j <= i < n == v@.len() == orig.len(),
                costs.dims().1 == operators@.len(),
                forall|k: int| 0 <= k < n ==> (#[trigger] v@[k]).id < operators@.len(),
                v@.no_duplicates(),
                forall|o: Op| v@.contains(o) <==> orig.contains(o),
                forall|k: int| 0 <= k < j - 1 ==> #[trigger] relaxed_order(operators@, *costs, v@[k], v@[k + 1]) != Order::Greater,
                forall|k: int| j + 1 <= k < i ==> #[trigger] relaxed_order(operators@, *costs, v@[k], v@[k + 1]) != Order::Greater,
                j < i ==> relaxed_order(operators@, *costs, v@[j as int], v@[j + 1]) == Order::Less,
                0 < j < i ==> relaxed_order(operators@, *costs, v@[j - 1], v@[j + 1]) != Order::Greater,
            decreases j,
        {
            let x = v[j];
            let y = v[j - 1];
            let ghost before = v@;
            v.set(j - 1, x);
            v.set(j, y);
            proof {
                lemma_relaxed_order_antisym(operators@, *costs, y, x);
                lemma_swap_keeps(before, v@, j as int, orig);
                if j >= 2 {
                    assert(relaxed_order(operators@, *costs, before[j - 2], before[(j - 2) + 1]) != Order::Greater);
                    assert(v@[j - 2] == before[j - 2]);
                }
            }
            j = j - 1;
            if j > 0 {
                go = relaxed_order_exec(operators, costs, v[j - 1], v[j]) == Order::Greater;
            } else {
                go = false;
            }
        }
        proof {
            assert forall|k: int| 0 <= k < i implies #[trigger] relaxed_order(operators@, *costs, v@[k], v@[k + 1]) != Order::Greater by {
                if k < j - 1 {
                } else if k == j - 1 {
                } else if k == j {
                } else {
                }
            }
        }
        i = i + 1;
    }
}

fn ops_contain(v: &[Op], o: Op) -> (res: bool)
    ensures
        res == v@.contains(o),
{
    let mut i: usize = 0;
    while i < v.len()
        invariant
            i <= v.len(),
            forall|j: int| 0 <= j < i ==> v@[j] != o,
        decreases v.len() - i,
    {
        if v[i] == o {
            return true;
        }
        i = i + 1;
    }
    false
}

/// Number of `false` in a sequence.
pub open spec fn count_false(s: Seq<bool>) -> nat
    decreases s.len(),
{
    if s.len() == 0 {
        0
    } else {
        count_false(s.drop_last()) + if s.last() { 0nat } else { 1nat }
    }
}

/// Marking an unmarked entry removes one `false`.
pub proof fn lemma_count_false_set(s: Seq<bool>, i: int)
    requires
        0 <= i < s.len(),
        !s[i],
    ensures
        count_false(s.update(i, true)) + 1 == count_false(s),
    decreases s.len(),
{
    if i < s.len() - 1 {
        lemma_count_false_set(s.drop_last(), i);
        assert(s.update(i, true).drop_last() =~= s.drop_last().update(i, true));
    } else {
        assert(s.update(i, true).drop_last() =~= s.drop_last());
    }
}

/// Whether the operator of index `k` achieves the literal `l`.
pub open spec fn achiever(ops: Seq<OperatorV>, l: Lit, k: int) -> bool {
    0 <= k < ops.len() && ops[k].eff.contains(l)
}

/// Whether the operator of index `k` is a cheapest achiever of `l`: of least cost, and of least
/// index among those.
pub open spec fn cheapest_id(ops: Seq<OperatorV>, costs: HAddResult, l: Lit, k: int) -> bool {
    &&& achiever(ops, l, k)
    &&& forall|k2: int|
        #[trigger] achiever(ops, l, k2) ==> costs.spec_op_cost(Op { id: k as usize }) < costs.spec_op_cost(
            Op { id: k2 as usize },
        ) || (costs.spec_op_cost(Op { id: k as usize }) == costs.spec_op_cost(Op { id: k2 as usize }) && k <= k2)
}

/// The cheapest achiever of `l`, if it has an achiever.
pub open spec fn cheapest(ops: Seq<OperatorV>, costs: HAddResult, l: Lit) -> Option<Op> {
    if exists|k: int| achiever(ops, l, k) {
        Some(Op { id: (choose|k: int| cheapest_id(ops, costs, l, k)) as usize })
    } else {
        None
    }
}

/// The literals that hold in `s`, as a table indexed by `lit_index`.
pub open spec fn sat_of(s: Seq<bool>) -> Seq<bool> {
    Seq::new(2 * s.len(), |i: int| if i % 2 == 1 { s[i / 2] } else { !s[i / 2] })
}

/// The operators that the relaxed-plan extraction chooses, in the order it chooses them: the
/// subgoals `queue` are taken in turn from `head` on; one that is not marked in `sat` gets marked
/// and its cheapest achiever, if new to `rplan`, is added with its preconditions as subgoals.
pub open spec fn relaxed_choice(
    ops: Seq<OperatorV>,
    costs: HAddResult,
    sat: Seq<bool>,
    queue: Seq<Lit>,
    head: int,
    rplan: Seq<Op>,
) -> Seq<Op>
    decreases count_false(sat), queue.len() - head,
{
    if 0 <= head < queue.len() {
        let g = queue[head];
        let gi = lit_index(g);
        if 0 <= gi < sat.len() && !sat[gi] {
            let sat2 = sat.update(gi, true);
            proof {
                lemma_count_false_set(sat, gi);
            }
            match cheapest(ops, costs, g) {
                Some(op) => if !rplan.contains(op) && op.id < ops.len() {
                    relaxed_choice(ops, costs, sat2, queue + ops[op.id as int].pre, head + 1, rplan.push(op))
                } else {
                    relaxed_choice(ops, costs, sat2, queue, head + 1, rplan)
                },
                None => relaxed_choice(ops, costs, sat2, queue, head + 1, rplan),
            }
        } else {
            relaxed_choice(ops, costs, sat, queue, head + 1, rplan)
        }
    } else {
        rplan
    }
}

/// Extracts a relaxed plan that attempts to reach the goals from `s`: going through the
/// subgoals in the order they come (breadth first), each subgoal that does not hold yet is
/// achieved by its cheapest achiever (the first of least cost), whose preconditions become
/// subgoals if the operator is new (`relaxed_choice`). The plan holds these operators, sorted
/// by the relaxed-plan order.
pub fn extract_relaxed_plan(operators: &Operators, goals: &[Lit], s: &State, action_costs: &HAddResult) -> (res: Vec<Op>)
    requires
        ops_wf(operators@, s@.len()),
        lits_in(goals@, s@.len()),
        2 * s@.len() + 2 <= usize::MAX,
        costs_fit(*action_costs, operators@, s@.len()),
    ensures
        ({
            let chosen = relaxed_choice(operators@, *action_costs, sat_of(s@), goals@, 0, seq![]);
            &&& res@.len() == chosen.len()
            &&& forall|o: Op| res@.contains(o) <==> chosen.contains(o)
        }),
        res@.no_duplicates(),
        forall|k: int| 0 <= k < res@.len() ==> (#[trigger] res@[k]).id < operators@.len(),
        ordered(operators@, *action_costs, res@),
{
    let n = s.size();
    let mut rplan: Vec<Op> = Vec::new();
    // the literals known to be satisfied, indexed by 2 * var + val
    let mut satisfied: Vec<bool> = Vec::new();
    let lits = s.literals();
    let mut v: usize = 0;
    while v < n
        invariant
            v <= n == s@.len(),
            2 * n + 2 <= usize::MAX,
            lits@.len() == n,
            forall|i: int| 0 <= i < n ==> #[trigger] lits@[i] == (Lit { var: crate::classical::state::SVId { id: i as usize }, val: s@[i] }),
            satisfied@.len() == 2 * v,
            forall|i: int| 0 <= i < 2 * v ==> #[trigger] satisfied@[i] == sat_of(s@)[i],
        decreases n - v,
    {
        let val = lits[v].val;
        satisfied.push(!val);
        satisfied.push(val);
        proof {
            assert(lits@[v as int].val == s@[v as int]);
            assert forall|i: int| 0 <= i < 2 * (v + 1) implies #[trigger] satisfied@[i] == sat_of(s@)[i] by {
                if i >= 2 * v {
                    assert(i / 2 == v);
                }
            }
        }
        v = v + 1;
    }
    proof {
        assert(satisfied@ =~= sat_of(s@));
    }
    let mut subgoals: Vec<Lit> = Vec::new();
    let mut k: usize = 0;
    while k < goals.len()
        invariant
            k <= goals@.len(),
            lits_in(goals@, n as nat),
            subgoals@ == goals@.subrange(0, k as int),
        decreases goals@.len() - k,
    {
        subgoals.push(goals[k]);
        k = k + 1;
        proof {
            assert(subgoals@ =~= goals@.subrange(0, k as int));
        }
    }
    proof {
        assert(subgoals@ =~= goals@);
    }
    let ghost chosen = relaxed_choice(operators@, *action_costs, sat_of(s@), goals@, 0, seq![]);
    let mut head: usize = 0;
    while head < subgoals.len()
        invariant
            head <= subgoals@.len(),
            n == s@.len(),
            2 * n + 2 <= usize::MAX,
            ops_wf(operators@, s@.len()),
            costs_fit(*action_costs, operators@, s@.len()),
            satisfied@.len() == 2 * n,
            lits_in(subgoals@, n as nat),
            rplan@.no_duplicates(),
            forall|m: int| 0 <= m < rplan@.len() ==> (#[trigger] rplan@[m]).id < operators@.len(),
            relaxed_choice(operators@, *action_costs, satisfied@, subgoals@, head as int, rplan@) == chosen,
        decreases count_false(satisfied@), subgoals@.len() - head,
    {
        let g = subgoals[head];
        let ghost sat0 = satisfied@;
        let ghost sub0 = subgoals@;
        let ghost head0 = head as int;
        let ghost rplan0 = rplan@;
        head = head + 1;
        let gi = 2 * g.var.id + if g.val { 1 } else { 0 };
        assert(gi == lit_index(g));
        if !satisfied[gi] {
            proof {
                lemma_count_false_set(satisfied@, gi as int);
            }
            satisfied.set(gi, true);
            let achievers = operators.achievers_of(g);
            let mut best: Option<Op> = None;
            let mut best_cost: Cost = 0;
            let ghost mut bi: int = 0;
            let mut j: usize = 0;
            while j < achievers.len()
                invariant
                    j <= achievers@.len(),
                    costs_fit(*action_costs, operators@, s@.len()),
                    forall|m: int| 0 <= m < achievers@.len() ==> (#[trigger] achievers@[m]).id < operators@.len(),
                    best is None <==> j == 0,
                    best matches Some(b) ==> {
                        &&& 0 <= bi < j
                        &&& achievers@[bi] == b
                        &&& best_cost == action_costs.spec_op_cost(b)
                        &&& forall|m: int| 0 <= m < bi ==> action_costs.spec_op_cost(b) < action_costs.spec_op_cost(#[trigger] achievers@[m])
                        &&& forall|m: int| bi <= m < j ==> action_costs.spec_op_cost(b) <= action_costs.spec_op_cost(#[trigger] achievers@[m])
                    },
                decreases achievers@.len() - j,
            {
                let op = achievers[j];
                let c = action_costs.operator_cost(op);
                match best {
                    None => {
                        best = Some(op);
                        best_cost = c;
                        proof {
                            bi = j as int;
                        }
                    },
                    Some(_) => {
                        if c < best_cost {
                            best = Some(op);
                            best_cost = c;
                            proof {
                                bi = j as int;
                            }
                        }
                    },
                }
                j = j + 1;
            }
            proof {
                // `best` is the cheapest achiever of `g`
                match best {
                    Some(b) => {
                        assert forall|k2: int| #[trigger] achiever(operators@, g, k2) implies action_costs.spec_op_cost(
                            Op { id: b.id as usize },
                        ) < action_costs.spec_op_cost(Op { id: k2 as usize }) || (action_costs.spec_op_cost(Op { id: b.id as usize })
                            == action_costs.spec_op_cost(Op { id: k2 as usize }) && b.id <= k2) by {
                            assert(operators@[k2].eff.contains(g));
                            assert(achievers@.contains(Op { id: k2 as usize }));
                            let m = choose|m: int| 0 <= m < achievers@.len() && achievers@[m] == Op { id: k2 as usize };
                            if m < bi {
                                assert(action_costs.spec_op_cost(b) < action_costs.spec_op_cost(achievers@[m]));
                            } else {
                                assert(action_costs.spec_op_cost(b) <= action_costs.spec_op_cost(achievers@[m]));
                                if m > bi {
                                    assert(achievers@[bi].id < achievers@[m].id);
                                }
                            }
                        }
                        assert(achiever(operators@, g, b.id as int));
                        assert(cheapest_id(operators@, *action_costs, g, b.id as int));
                        let k = choose|k: int| cheapest_id(operators@, *action_costs, g, k);
                        assert(achiever(operators@, g, k));
                        assert(k == b.id as int);
                        assert(cheapest(operators@, *action_costs, g) == Some(b));
                    },
                    None => {
                        assert forall|k2: int| !achiever(operators@, g, k2) by {
                            if achiever(operators@, g, k2) {
                                assert(operators@[k2].eff.contains(g));
                                assert(achievers@.contains(Op { id: k2 as usize }));
                            }
                        }
                        assert(cheapest(operators@, *action_costs, g) == None::<Op>);
                    },
                }
            }
            if let Some(operator) = best {
                let present = ops_contain(rplan.as_slice(), operator);
                if !present {
                    rplan.push(operator);
                    proof {
                        assert forall|a: int, b: int| 0 <= a < b < rplan@.len() implies rplan@[a] != rplan@[b] by {
                            if b == rplan@.len() - 1 {
                                assert(rplan@.drop_last()[a] == rplan@[a]);
                            }
                        }
                    }
                    let pre = operators.preconditions(operator);
                    let ghost sub1 = subgoals@;
                    let mut c: usize = 0;
                    while c < pre.len()
                        invariant
                            c <= pre@.len(),
                            lits_in(pre@, n as nat),
                            lits_in(subgoals@, n as nat),
                            head <= subgoals@.len(),
                            sub1.len() >= head,
                            subgoals@ == sub1 + pre@.subrange(0, c as int),
                        decreases pre@.len() - c,
                    {
                        subgoals.push(pre[c]);
                        c = c + 1;
                        proof {
                            assert(subgoals@ =~= sub1 + pre@.subrange(0, c as int));
                        }
                    }
                    proof {
                        assert(pre@.subrange(0, pre@.len() as int) =~= pre@);
                        assert(subgoals@ == sub0 + operators@[operator.id as int].pre);
                    }
                }
            }
        }
    }
    sort_relaxed(&mut rplan, operators, action_costs);
    rplan
}


/// Whether some operator of `rplan` is applicable in `s`.
pub open spec fn has_applicable(ops: Seq<OperatorV>, s: Seq<bool>, rplan: Seq<Op>) -> bool {
    exists|k: int| 0 <= k < rplan.len() && applicable(ops, s, #[trigger] rplan[k])
}

/// Index of the first operator of `rplan` applicable in `s`.
fn first_applicable(rplan: &Vec<Op>, operators: &Operators, s: &State) -> (res: Option<usize>)
    requires
        forall|k: int| 0 <= k < rplan@.len() ==> (#[trigger] rplan@[k]).id < operators@.len(),
    ensures
        match res {
            Some(i) => i < rplan@.len() && applicable(operators@, s@, rplan@[i as int]) && forall|k: int|
                0 <= k < i ==> !applicable(operators@, s@, #[trigger] rplan@[k]),
            None => !has_applicable(operators@, s@, rplan@),
        },
{
    let mut i: usize = 0;
    while i < rplan.len()
        invariant
            i <= rplan@.len(),
            forall|k: int| 0 <= k < rplan@.len() ==> (#[trigger] rplan@[k]).id < operators@.len(),
            forall|k: int| 0 <= k < i ==> !applicable(operators@, s@, #[trigger] rplan@[k]),
        decreases rplan@.len() - i,
    {
        if s.entails_all(operators.preconditions(rplan[i])) {
            return Some(i);
        }
        i = i + 1;
    }
    None
}

/// Running a plan followed by one applicable operator.
proof fn lemma_run_plan_push(ops: Seq<OperatorV>, s0: Seq<bool>, plan: Seq<Op>, t: Seq<bool>, op: Op)
    requires
        run_plan(ops, s0, plan) == Some(t),
        applicable(ops, t, op),
    ensures
        run_plan(ops, s0, plan.push(op)) == Some(apply(t, ops[op.id as int].eff)),
{
    assert(plan.push(op).drop_last() =~= plan);
}

/// Builds a lookahead plan from `base_state`: repeatedly applies the first applicable operator
/// of a relaxed plan, and when none is, tries to repair the relaxed plan with an applicable
/// replacement. Returns the state reached and the plan that reaches it.
fn lookahead(
    operators: &Operators,
    goals: &[Lit],
    base_state: &State,
    action_costs: &HAddResult,
) -> (res: (State, Vec<Op>))
    requires
        ops_wf(operators@, base_state@.len()),
        lits_in(goals@, base_state@.len()),
        2 * base_state@.len() + 2 <= usize::MAX,
        costs_fit(*action_costs, operators@, base_state@.len()),
    ensures
        run_plan(operators@, base_state@, res.1@) == Some(res.0@),
        res.0@.len() == base_state@.len(),
{
    let mut plan: Vec<Op> = Vec::new();
    let mut rplan = extract_relaxed_plan(operators, goals, base_state, action_costs);
    let mut s = base_state.copy();
    let ghost n = base_state@.len();
    let mut looping = true;
    while looping
        invariant
            ops_wf(operators@, n),
            costs_fit(*action_costs, operators@, n),
            s@.len() == n,
            run_plan(operators@, base_state@, plan@) == Some(s@),
            forall|k: int| 0 <= k < rplan@.len() ==> (#[trigger] rplan@[k]).id < operators@.len(),
        decreases 3 * rplan@.len() + if looping {
            1 + if has_applicable(operators@, s@, rplan@) { 0int } else { 1int }
        } else {
            0int
        },
    {
        looping = false;
        let first = first_applicable(&rplan, operators, &s);
        if let Some(index) = first {
            looping = true;
            let op = rplan[index];
            let ghost t = s@;
            s.set_all(operators.effects(op));
            proof {
                lemma_run_plan_push(operators@, base_state@, plan@, t, op);
            }
            plan.push(op);
            let ghost rplan0 = rplan@;
            rplan.remove(index);
            proof {
                assert forall|k: int| 0 <= k < rplan@.len() implies (#[trigger] rplan@[k]).id < operators@.len() by {
                    if k < index {
                    } else {
                        assert(rplan@[k] == rplan0[k + 1]);
                    }
                }
            }
        } else {
            // no applicable operator in the relaxed plan: try repairing it
            let ghost len = rplan@.len();
            let mut i: usize = 0;
            let mut j: usize = 0;
            while !looping && i < rplan.len()
                invariant
                    rplan@.len() == len,
                    ops_wf(operators@, n),
                    costs_fit(*action_costs, operators@, n),
                    s@.len() == n,
                    forall|k: int| 0 <= k < rplan@.len() ==> (#[trigger] rplan@[k]).id < operators@.len(),
                    !looping ==> !has_applicable(operators@, s@, rplan@),
                    looping ==> has_applicable(operators@, s@, rplan@),
                decreases rplan@.len() - i,
            {
                while !looping && j < rplan.len()
                    invariant
                        i < rplan@.len() == len,
                        ops_wf(operators@, n),
                        costs_fit(*action_costs, operators@, n),
                        s@.len() == n,
                        forall|k: int| 0 <= k < rplan@.len() ==> (#[trigger] rplan@[k]).id < operators@.len(),
                        !looping ==> !has_applicable(operators@, s@, rplan@),
                        looping ==> has_applicable(operators@, s@, rplan@),
                    decreases rplan@.len() - j,
                {
                    if i == j {
                        // an operator cannot support itself
                    } else {
                        proof {
                            if entails_all(s@, operators@[rplan@[i as int].id as int].pre) {
                                assert(applicable(operators@, s@, rplan@[i as int]));
                            }
                        }
                        let replacement = find_applicable_supporting_replacement(
                            rplan[i],
                            rplan[j],
                            operators,
                            &s,
                            action_costs,
                        );
                        if let Some(r) = replacement {
                            looping = true;
                            rplan.set(i, r);
                            proof {
                                assert(applicable(operators@, s@, rplan@[i as int]));
                            }
                        }
                    }
                    j = j + 1;
                }
                i = i + 1;
            }
        }
    }
    (s, plan)
}

/// The states of a sequence of states.
pub open spec fn state_views(c: Seq<State>) -> Seq<Seq<bool>> {
    c.map_values(|s: State| s@)
}

/// The closed list holds distinct states of `n` variables.
pub open spec fn closed_ok(c: Seq<State>, n: nat) -> bool {
    &&& state_views(c).no_duplicates()
    &&& forall|i: int| 0 <= i < c.len() ==> (#[trigger] c[i])@.len() == n
}

proof fn lemma_closed_bound(c: Seq<State>, n: nat)
    requires
        closed_ok(c, n),
    ensures
        crate::classical::state::bool_seqs(n).finite(),
        c.len() <= crate::classical::state::bool_seqs(n).len(),
{
    crate::classical::state::lemma_distinct_states_bound(state_views(c), n);
}

fn closed_contains(closed: &Vec<State>, s: &State) -> (res: bool)
    ensures
        res == state_views(closed@).contains(s@),
{
    let mut i: usize = 0;
    while i < closed.len()
        invariant
            i <= closed@.len(),
            forall|j: int| 0 <= j < i ==> closed@[j]@ != s@,
        decreases closed@.len() - i,
    {
        if closed[i].same(s) {
            assert(state_views(closed@)[i as int] == s@);
            return true;
        }
        i = i + 1;
    }
    proof {
        if state_views(closed@).contains(s@) {
            let k = choose|k: int| 0 <= k < state_views(closed@).len() && state_views(closed@)[k] == s@;
            assert(closed@[k]@ == s@);
        }
    }
    false
}

fn saturating_add_u32(a: u32, b: u32) -> (res: u32)
    ensures
        res == if a + b > u32::MAX { u32::MAX as int } else { a + b },
{
    if a > u32::MAX - b {
        u32::MAX
    } else {
        a + b
    }
}

/// Heuristic value of a node: `plan_length + h_weight * h_cost`, capped at `INF`.
pub open spec fn weighted(plan_length: u32, h_weight: Cost, h_cost: Cost) -> Cost {
    let v = plan_length + h_weight * h_cost;
    if v > INF { INF } else { v as Cost }
}

fn weighted_exec(plan_length: u32, h_weight: Cost, h_cost: Cost) -> (res: Cost)
    ensures
        res == weighted(plan_length, h_weight, h_cost),
{
    if h_cost != 0 && h_weight > INF / h_cost {
        proof {
            assert(h_weight * h_cost > INF) by (nonlinear_arith)
                requires h_cost > 0, h_weight > INF / h_cost;
        }
        INF
    } else {
        assert(h_weight * h_cost <= INF) by (nonlinear_arith)
            requires h_cost == 0 || h_weight <= INF / h_cost;
        let p = h_weight * h_cost;
        if p > INF - (plan_length as u64) {
            INF
        } else {
            p + plan_length as u64
        }
    }
}

/// No plan achieves the goals from `s`.
pub open spec fn dead(ops: Seq<OperatorV>, s: Seq<bool>, goals: Seq<Lit>) -> bool {
    forall|p: Seq<Op>| !#[trigger] achieves(ops, s, p, goals)
}

/// Some node of `open` holds the state `s`.
pub open spec fn in_open(nodes: Seq<Node>, open: Seq<usize>, s: Seq<bool>) -> bool {
    exists|m: int| 0 <= m < open.len() && nodes[#[trigger] open[m] as int].state@ == s
}

/// Every successor of `s` by an applicable operator is in `closed`.
pub open spec fn expanded(ops: Seq<OperatorV>, closed: Seq<Seq<bool>>, s: Seq<bool>) -> bool {
    forall|op: Op| #[trigger] applicable(ops, s, op) ==> closed.contains(apply(s, ops[op.id as int].eff))
}

/// Processes a node that may not have been seen: if its state is closed already, nothing is
/// done. Otherwise the state is closed; if it satisfies the goals the node is returned; if the
/// goals are unreachable from it, nothing more is done; else the node is opened with its
/// heuristic value and, with lookahead, the node projected by a lookahead plan is processed
/// the same way.
fn compute_node(
    operators: &Operators,
    goals: &[Lit],
    node: Node,
    nodes: &mut Vec<Node>,
    open: &mut Vec<usize>,
    closed: &mut Vec<State>,
    cfg: &Cfg,
    Ghost(init): Ghost<Seq<bool>>,
) -> (res: Option<Node>)
    requires
        ops_wf(operators@, init.len()),
        lits_in(goals@, init.len()),
        2 * init.len() + 2 <= usize::MAX,
        tree_ok(operators@, init, old(nodes)@),
        node_ok(operators@, init, old(nodes)@, node),
        forall|k: int| 0 <= k < old(open)@.len() ==> (#[trigger] old(open)@[k]) < old(nodes)@.len(),
        closed_ok(old(closed)@, init.len()),
    ensures
        tree_ok(operators@, init, final(nodes)@),
        final(nodes)@.len() >= old(nodes)@.len(),
        final(nodes)@.subrange(0, old(nodes)@.len() as int) == old(nodes)@,
        forall|k: int| 0 <= k < final(open)@.len() ==> (#[trigger] final(open)@[k]) < final(nodes)@.len(),
        final(open)@.len() >= old(open)@.len(),
        final(open)@.subrange(0, old(open)@.len() as int) == old(open)@,
        closed_ok(final(closed)@, init.len()),
        final(closed)@.len() >= old(closed)@.len(),
        final(open)@.len() - old(open)@.len() <= final(closed)@.len() - old(closed)@.len(),
        forall|x: Seq<bool>| #[trigger] state_views(old(closed)@).contains(x) ==> state_views(final(closed)@).contains(x),
        !state_views(old(closed)@).contains(node.state@) && entails_all(node.state@, goals@) ==> res == Some(node),
        match res {
            Some(sol) => node_ok(operators@, init, final(nodes)@, sol) && entails_all(sol.state@, goals@),
            None => {
                &&& state_views(final(closed)@).contains(node.state@)
                &&& forall|x: Seq<bool>|
                    #[trigger] state_views(final(closed)@).contains(x) && !state_views(old(closed)@).contains(x) ==> !entails_all(
                        x,
                        goals@,
                    ) && (dead(operators@, x, goals@) || in_open(final(nodes)@, final(open)@, x))
            },
        },
    decreases crate::classical::state::bool_seqs(init.len()).len() - old(closed)@.len(),
{
    let mut node = node;
    proof {
        crate::classical::state::lemma_run_plan_len(operators@, init, plan_of(nodes@, node));
        lemma_closed_bound(closed@, init.len());
    }
    if closed_contains(closed, &node.state) {
        assert(nodes@.subrange(0, nodes@.len() as int) =~= nodes@);
        assert(open@.subrange(0, open@.len() as int) =~= open@);
        return None;
    }
    let ghost old_closed = closed@;
    closed.push(node.state.copy());
    proof {
        assert(state_views(closed@) =~= state_views(old_closed).push(node.state@));
        assert forall|a: int, b: int| 0 <= a < b < state_views(closed@).len() implies state_views(closed@)[a] != state_views(closed@)[b] by {
            if b == old_closed.len() {
                assert(state_views(old_closed)[a] != node.state@);
            }
        }
        lemma_closed_bound(closed@, init.len());
        assert(state_views(closed@)[old_closed.len() as int] == node.state@);
        assert forall|x: Seq<bool>| #[trigger] state_views(old_closed).contains(x) implies state_views(closed@).contains(x) by {
            let w = choose|w: int| 0 <= w < state_views(old_closed).len() && state_views(old_closed)[w] == x;
            assert(state_views(closed@)[w] == x);
        }
    }
    let ghost closed1 = closed@;
    let hres = hadd(&node.state, operators);
    let h_cost = hres.conjunction_cost(goals);
    proof {
        // a state where the goals hold has a goal cost of 0
        if entails_all(node.state@, goals@) {
            assert forall|i: int| 0 <= i < goals@.len() implies hres.spec_lit_cost(#[trigger] goals@[i]) == 0 by {
                assert(entails(node.state@, goals@[i]));
            }
        }
        // the only states closed here are the node's
        assert forall|x: Seq<bool>| #[trigger] state_views(closed1).contains(x) && !state_views(old_closed).contains(x) implies x == node.state@ by {
            let w = choose|w: int| 0 <= w < state_views(closed1).len() && state_views(closed1)[w] == x;
            if w < old_closed.len() {
                assert(state_views(old_closed)[w] == x);
            }
        }
    }
    if h_cost == 0 && node.state.entails_all(goals) {
        assert(nodes@.subrange(0, nodes@.len() as int) =~= nodes@);
        assert(open@.subrange(0, open@.len() as int) =~= open@);
        Some(node)
    } else if h_cost == INF {
        assert(nodes@.subrange(0, nodes@.len() as int) =~= nodes@);
        assert(open@.subrange(0, open@.len() as int) =~= open@);
        proof {
            let i = choose|i: int| 0 <= i < goals@.len() && hres.spec_lit_cost(#[trigger] goals@[i]) == INF;
            lemma_inf_unreachable(node.state@, operators@, hres, goals@, i);
            assert(dead(operators@, node.state@, goals@));
        }
        None
    } else {
        node.heuristic = weighted_exec(node.plan_length, cfg.h_weight, h_cost);
        let idx = nodes.len();
        let ghost nodes0 = nodes@;
        let ghost open0 = open@;
        proof {
            lemma_tree_push(operators@, init, nodes@, node);
            lemma_plan_at_last(nodes@, node);
        }
        let plan_length = node.plan_length;
        let ghost nstate = node.state@;
        nodes.push(node);
        open.push(idx);
        proof {
            assert(nodes@.subrange(0, nodes0.len() as int) =~= nodes0);
            assert(open@.subrange(0, open0.len() as int) =~= open0);
            assert(open@[open0.len() as int] == idx);
            assert(nodes@[idx as int].state@ == nstate);
            assert(in_open(nodes@, open@, nstate));
        }
        if cfg.use_lookahead {
            let (proj_state, proj_plan) = lookahead(operators, goals, &nodes[idx].state, &hres);
            let succ_len = saturating_add_u32(plan_length, if proj_plan.len() > u32::MAX as usize { u32::MAX } else { proj_plan.len() as u32 });
            let succ = Node {
                state: proj_state,
                parent: Some(idx),
                steps: proj_plan,
                plan_length: succ_len,
                heuristic: 0,
            };
            proof {
                let pn = plan_at(nodes@, idx as int);
                assert(run_plan(operators@, init, pn) == Some(nodes@[idx as int].state@));
                lemma_run_plan_concat(operators@, init, pn, succ.steps@);
            }
            let ghost nodes1 = nodes@;
            let ghost open1 = open@;
            let r = compute_node(operators, goals, succ, nodes, open, closed, cfg, Ghost(init));
            proof {
                assert forall|i: int| 0 <= i < nodes0.len() implies nodes@[i] == nodes0[i] by {
                    assert(nodes@.subrange(0, nodes1.len() as int)[i] == nodes1[i]);
                    assert(nodes1.subrange(0, nodes0.len() as int)[i] == nodes0[i]);
                }
                assert(nodes@.subrange(0, nodes0.len() as int) =~= nodes0);
                assert forall|i: int| 0 <= i < open0.len() implies open@[i] == open0[i] by {
                    assert(open@.subrange(0, open1.len() as int)[i] == open1[i]);
                    assert(open1.subrange(0, open0.len() as int)[i] == open0[i]);
                }
                assert(open@.subrange(0, open0.len() as int) =~= open0);
                if r is None {
                    assert(open@[open0.len() as int] == open1[open0.len() as int]) by {
                        assert(open@.subrange(0, open1.len() as int)[open0.len() as int] == open1[open0.len() as int]);
                    }
                    assert(nodes@[idx as int] == nodes1[idx as int]) by {
                        assert(nodes@.subrange(0, nodes1.len() as int)[idx as int] == nodes1[idx as int]);
                    }
                    assert(in_open(nodes@, open@, nstate));
                    assert(state_views(closed1).contains(nstate));
                    assert(state_views(closed@).contains(nstate));
                }
            }
            r
        } else {
            None
        }
    }
}

/// When every state of `closed` is one where the goals do not hold, and each is either dead or
/// has all its successors in `closed`, no plan achieves the goals from a state of `closed`.
proof fn lemma_exhausted(ops: Seq<OperatorV>, closed: Seq<Seq<bool>>, goals: Seq<Lit>, s: Seq<bool>, p: Seq<Op>)
    requires
        closed.contains(s),
        forall|x: Seq<bool>| #[trigger] closed.contains(x) ==> !entails_all(x, goals),
        forall|x: Seq<bool>| #[trigger] closed.contains(x) ==> dead(ops, x, goals) || expanded(ops, closed, x),
    ensures
        !achieves(ops, s, p, goals),
    decreases p.len(),
{
    if achieves(ops, s, p, goals) && p.len() > 0 && !dead(ops, s, goals) {
        let op = p[0];
        let rest = p.drop_first();
        assert(p =~= seq![op] + rest);
        lemma_run_plan_concat(ops, s, seq![op], rest);
        assert(seq![op].drop_last() =~= Seq::<Op>::empty());
        assert(seq![op].last() == op);
        reveal_with_fuel(run_plan, 2);
        assert(run_plan(ops, s, seq![op]) is Some);
        assert(applicable(ops, s, op));
        let s2 = apply(s, ops[op.id as int].eff);
        assert(run_plan(ops, s, seq![op]) == Some(s2));
        assert(closed.contains(s2));
        lemma_exhausted(ops, closed, goals, s2, rest);
    }
}

/// Whether node `x` comes before node `y` in the search: a lower heuristic value, or the same
/// one and a shorter plan.
pub open spec fn node_before(x: Node, y: Node) -> bool {
    x.heuristic < y.heuristic || (x.heuristic == y.heuristic && x.plan_length < y.plan_length)
}

/// Index (in `open`) of a node of least heuristic value, and among those of least plan length:
/// the first one met.
fn best_open(open: &Vec<usize>, nodes: &Vec<Node>) -> (res: usize)
    requires
        open@.len() > 0,
        forall|k: int| 0 <= k < open@.len() ==> (#[trigger] open@[k]) < nodes@.len(),
    ensures
        res < open@.len(),
        forall|k: int| 0 <= k < open@.len() ==> !node_before(nodes@[#[trigger] open@[k] as int], nodes@[open@[res as int] as int]),
{
    let mut best: usize = 0;
    let mut i: usize = 1;
    while i < open.len()
        invariant
            best < i <= open@.len(),
            forall|k: int| 0 <= k < open@.len() ==> (#[trigger] open@[k]) < nodes@.len(),
            forall|k: int| 0 <= k < i ==> !node_before(nodes@[#[trigger] open@[k] as int], nodes@[open@[best as int] as int]),
        decreases open@.len() - i,
    {
        let hi = nodes[open[i]].heuristic;
        let hb = nodes[open[best]].heuristic;
        if hi < hb || (hi == hb && nodes[open[i]].plan_length < nodes[open[best]].plan_length) {
            best = i;
        }
        i = i + 1;
    }
    best
}

/// Plan search with weighted A* and the h^add heuristic, with lookahead nodes when enabled;
/// the open node expanded next is one of least heuristic value, and among those of shortest
/// plan.
///
/// Returns a plan (sequence of operators) that reaches a state satisfying the goals from the
/// initial state, or `None` if the search space was exhausted without reaching one, which
/// happens exactly when no plan reaches the goals.
pub fn plan_search(initial_state: &State, ops: &Operators, goals: &[Lit], cfg: &Cfg) -> (res: Option<Vec<Op>>)
    requires
        ops_wf(ops@, initial_state@.len()),
        lits_in(goals@, initial_state@.len()),
        2 * initial_state@.len() + 2 <= usize::MAX,
    ensures
        res matches Some(plan) ==> achieves(ops@, initial_state@, plan@, goals@),
        res is None ==> forall|p: Seq<Op>| !#[trigger] achieves(ops@, initial_state@, p, goals@),
        entails_all(initial_state@, goals@) ==> (res matches Some(plan) && plan@.len() == 0),
{
    let ghost init = initial_state@;
    let mut nodes: Vec<Node> = Vec::new();
    let mut open: Vec<usize> = Vec::new();
    let mut closed: Vec<State> = Vec::new();
    let init_node = Node {
        state: initial_state.copy(),
        parent: None,
        steps: Vec::new(),
        plan_length: 0,
        heuristic: 0,
    };
    proof {
        assert(closed_ok(closed@, init.len()));
        assert(plan_of(nodes@, init_node) =~= Seq::<Op>::empty());
    }
    let ghost closed0 = closed@;
    let ghost init_copy = init_node;
    proof {
        assert(state_views(closed0) =~= Seq::<Seq<bool>>::empty());
    }
    if let Some(solution) = compute_node(ops, goals, init_node, &mut nodes, &mut open, &mut closed, cfg, Ghost(init)) {
        let plan = solution.extract_plan(&nodes);
        proof {
            if entails_all(init, goals@) {
                assert(solution == init_copy);
                assert(plan@ == init_copy.steps@);
            }
        }
        return Some(plan);
    }
    proof {
        lemma_closed_bound(closed@, init.len());
        assert(state_views(closed0) =~= Seq::<Seq<bool>>::empty());
    }
    while open.len() > 0
        invariant
            ops_wf(ops@, init.len()),
            lits_in(goals@, init.len()),
            2 * init.len() + 2 <= usize::MAX,
            init == initial_state@,
            tree_ok(ops@, init, nodes@),
            forall|k: int| 0 <= k < open@.len() ==> (#[trigger] open@[k]) < nodes@.len(),
            closed_ok(closed@, init.len()),
            crate::classical::state::bool_seqs(init.len()).finite(),
            closed@.len() <= crate::classical::state::bool_seqs(init.len()).len(),
            state_views(closed@).contains(init),
            forall|x: Seq<bool>| #[trigger] state_views(closed@).contains(x) ==> !entails_all(x, goals@),
            forall|x: Seq<bool>|
                #[trigger] state_views(closed@).contains(x) ==> dead(ops@, x, goals@) || in_open(nodes@, open@, x)
                    || expanded(ops@, state_views(closed@), x),
        decreases 2 * (crate::classical::state::bool_seqs(init.len()).len() - closed@.len()) + open@.len(),
    {
        let ghost measure0 = 2 * (crate::classical::state::bool_seqs(init.len()).len() - closed@.len()) + open@.len();
        let k = best_open(&open, &nodes);
        let ghost open0 = open@;
        let ni = open.remove(k);
        let ghost sn = nodes@[ni as int].state@;
        proof {
            assert forall|m: int| 0 <= m < open@.len() implies (#[trigger] open@[m]) < nodes@.len() by {
                if m < k {
                    assert(open@[m] == open0[m]);
                } else {
                }
            }
            crate::classical::state::lemma_run_plan_len(ops@, init, plan_at(nodes@, ni as int));
            // the states held by the other open nodes are still held by open nodes
            assert forall|x: Seq<bool>| #[trigger] state_views(closed@).contains(x) implies dead(ops@, x, goals@) || in_open(
                nodes@,
                open@,
                x,
            ) || expanded(ops@, state_views(closed@), x) || x == sn by {
                if in_open(nodes@, open0, x) && !dead(ops@, x, goals@) && !expanded(ops@, state_views(closed@), x) {
                    let m = choose|m: int| 0 <= m < open0.len() && nodes@[#[trigger] open0[m] as int].state@ == x;
                    if m < k {
                        assert(open@[m] == open0[m]);
                    } else if m > k {
                        assert(open@[m - 1] == open0[m]);
                    }
                }
            }
        }
        let hres = hadd(&nodes[ni].state, ops);
        let app = hres.applicable_operators();
        let mut a: usize = 0;
        while a < app.len()
            invariant
                a <= app@.len(),
                ni < nodes@.len(),
                sn == nodes@[ni as int].state@,
                state_views(closed@).contains(init),
                forall|x: Seq<bool>| #[trigger] state_views(closed@).contains(x) ==> !entails_all(x, goals@),
                forall|x: Seq<bool>|
                    #[trigger] state_views(closed@).contains(x) ==> dead(ops@, x, goals@) || in_open(nodes@, open@, x)
                        || expanded(ops@, state_views(closed@), x) || x == sn,
                forall|i: int| 0 <= i < a ==> state_views(closed@).contains(apply(sn, ops@[(#[trigger] app@[i]).id as int].eff)),
                ops_wf(ops@, init.len()),
                lits_in(goals@, init.len()),
                2 * init.len() + 2 <= usize::MAX,
                init == initial_state@,
                tree_ok(ops@, init, nodes@),
                nodes@[ni as int].state@.len() == init.len(),
                app@ == hres.spec_applicable(),
                hadd_ensures(nodes@[ni as int].state@, ops@, hres),
                forall|k: int| 0 <= k < open@.len() ==> (#[trigger] open@[k]) < nodes@.len(),
                closed_ok(closed@, init.len()),
                crate::classical::state::bool_seqs(init.len()).finite(),
                closed@.len() <= crate::classical::state::bool_seqs(init.len()).len(),
                2 * (crate::classical::state::bool_seqs(init.len()).len() - closed@.len()) + open@.len() < measure0,
            decreases app@.len() - a,
        {
            let op = app[a];
            let mut s = nodes[ni].state.copy();
            proof {
                assert(applicable(ops@, nodes@[ni as int].state@, op));
            }
            s.set_all(ops.effects(op));
            let succ = Node {
                state: s,
                parent: Some(ni),
                steps: vec![op],
                plan_length: saturating_add_u32(nodes[ni].plan_length, 1),
                heuristic: 0,
            };
            proof {
                let pn = plan_at(nodes@, ni as int);
                lemma_run_plan_push(ops@, init, pn, nodes@[ni as int].state@, op);
                assert(pn.push(op) =~= plan_of(nodes@, succ));
            }
            let ghost nodes_before = nodes@;
            let ghost open_before = open@;
            let ghost closed_before = closed@;
            let ghost succ_state = succ.state@;
            if let Some(solution) = compute_node(ops, goals, succ, &mut nodes, &mut open, &mut closed, cfg, Ghost(init)) {
                let plan = solution.extract_plan(&nodes);
                return Some(plan);
            }
            proof {
                assert(nodes@[ni as int] == nodes_before[ni as int]) by {
                    assert(nodes@.subrange(0, nodes_before.len() as int)[ni as int] == nodes@[ni as int]);
                }
                lemma_closed_bound(closed@, init.len());
                assert(succ_state == apply(sn, ops@[op.id as int].eff));
                assert forall|x: Seq<bool>| #[trigger] state_views(closed@).contains(x) implies dead(ops@, x, goals@) || in_open(
                    nodes@,
                    open@,
                    x,
                ) || expanded(ops@, state_views(closed@), x) || x == sn by {
                    if state_views(closed_before).contains(x) {
                        if in_open(nodes_before, open_before, x) {
                            let m = choose|m: int| 0 <= m < open_before.len() && nodes_before[#[trigger] open_before[m] as int].state@ == x;
                            assert(open@[m] == open_before[m]) by {
                                assert(open@.subrange(0, open_before.len() as int)[m] == open_before[m]);
                            }
                            assert(nodes@[open_before[m] as int] == nodes_before[open_before[m] as int]) by {
                                assert(nodes@.subrange(0, nodes_before.len() as int)[open_before[m] as int] == nodes_before[open_before[m] as int]);
                            }
                        }
                        if expanded(ops@, state_views(closed_before), x) {
                            assert forall|o: Op| #[trigger] applicable(ops@, x, o) implies state_views(closed@).contains(apply(x, ops@[o.id as int].eff)) by {
                                assert(state_views(closed_before).contains(apply(x, ops@[o.id as int].eff)));
                            }
                        }
                    }
                }
                assert forall|i: int| 0 <= i < a + 1 implies state_views(closed@).contains(apply(sn, ops@[(#[trigger] app@[i]).id as int].eff)) by {
                    if i < a {
                        assert(state_views(closed_before).contains(apply(sn, ops@[app@[i].id as int].eff)));
                    }
                }
            }
            a = a + 1;
        }
        proof {
            // every operator applicable in `sn` was tried
            assert forall|o: Op| #[trigger] applicable(ops@, sn, o) implies state_views(closed@).contains(apply(sn, ops@[o.id as int].eff)) by {
                assert(applicable(ops@, sn, Op { id: o.id as usize }));
                assert(app@.contains(Op { id: o.id as usize }));
                let i = choose|i: int| 0 <= i < app@.len() && app@[i] == Op { id: o.id as usize };
                assert(state_views(closed@).contains(apply(sn, ops@[app@[i].id as int].eff)));
            }
            assert(expanded(ops@, state_views(closed@), sn));
        }
    }
    proof {
        assert forall|p: Seq<Op>| !#[trigger] achieves(ops@, initial_state@, p, goals@) by {
            lemma_exhausted(ops@, state_views(closed@), goals@, init, p);
        }
    }
    None
}

} // verus!
