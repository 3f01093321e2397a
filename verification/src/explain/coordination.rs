//! Coordination of the steps of a plan around parameters: the steps whose operators use a given
//! symbol, and the support links between steps of different groups.
use vstd::prelude::*;
use crate::classical::state::{Op, OperatorV};
use crate::classical::GroundProblem;
use crate::explain::state2::{Resume, newresume};
use crate::explain::matrix::IntMatrix;
use crate::explain::explain::plan_in;
use crate::explain::necessity::{flat, occ};
use crate::explain::threats::over_steps;

verus! {

/// Groups of steps: a symbol, with the operators of the plan that use it.
pub type Groups = Vec<(usize, Vec<Op>)>;

/// What each group holds: its symbol and its operators.
pub open spec fn groups_view(g: Seq<(usize, Vec<Op>)>) -> Seq<(usize, Seq<Op>)> {
    g.map_values(|x: (usize, Vec<Op>)| (x.0, x.1@))
}

/// The symbols found among `ids`, each once, in the order of their first occurrence.
pub open spec fn distinct_some(ids: Seq<Option<usize>>) -> Seq<usize>
    decreases ids.len(),
{
    if ids.len() == 0 {
        seq![]
    } else {
        let d = distinct_some(ids.drop_last());
        match ids.last() {
            Some(x) => if d.contains(x) {
                d
            } else {
                d.push(x)
            },
            None => d,
        }
    }
}

/// The symbols that `distinct_some` lists are distinct, and they are those found among `ids`.
pub proof fn lemma_distinct_some(ids: Seq<Option<usize>>)
    ensures
        forall|j: int, l: int| 0 <= j < l < distinct_some(ids).len() ==> distinct_some(ids)[j] != distinct_some(ids)[l],
    decreases ids.len(),
{
    if ids.len() > 0 {
        lemma_distinct_some(ids.drop_last());
        let d = distinct_some(ids.drop_last());
        if let Some(x) = ids.last() {
            if !d.contains(x) {
                let e = d.push(x);
                assert forall|j: int, l: int| 0 <= j < l < e.len() implies e[j] != e[l] by {
                    if l == d.len() && e[j] == x {
                        assert(d[j] == x);
                    }
                }
            }
        }
    }
}

/// How many times the symbol `k` occurs in `name`.
pub open spec fn count_sym(name: Seq<usize>, k: usize) -> nat
    decreases name.len(),
{
    if name.len() == 0 {
        0
    } else {
        count_sym(name.drop_last(), k) + if name.last() == k {
            1nat
        } else {
            0nat
        }
    }
}

/// The operators of the plan whose name holds the symbol `k`, in order, each once per
/// occurrence of `k` in its name.
pub open spec fn ops_with(ops: Seq<OperatorV>, plan: Seq<Op>, k: usize) -> Seq<Op> {
    flat(plan, |op: Op| Seq::new(count_sym(ops[op.id as int].name, k), |c: int| op))
}

/// The groups of `coordination`: one per symbol of `ids`, in the order of first occurrence, with
/// the operators of the plan whose name holds it.
pub open spec fn coordination_v(ops: Seq<OperatorV>, plan: Seq<Op>, ids: Seq<Option<usize>>) -> Seq<(usize, Seq<Op>)> {
    distinct_some(ids).map_values(|k: usize| (k, ops_with(ops, plan, k)))
}

/// Position of the group of symbol `k`, if any.
fn group_of(h: &Groups, k: usize) -> (p: usize)
    ensures
        p <= h@.len(),
        p < h@.len() ==> h@[p as int].0 == k && forall|j: int| 0 <= j < p ==> (#[trigger] h@[j]).0 != k,
        p == h@.len() ==> forall|j: int| 0 <= j < h@.len() ==> (#[trigger] h@[j]).0 != k,
{
    let mut p: usize = 0;
    while p < h.len()
        invariant
            p <= h@.len(),
            forall|j: int| 0 <= j < p ==> (#[trigger] h@[j]).0 != k,
        decreases h@.len() - p,
    {
        if h[p].0 == k {
            return p;
        }
        p = p + 1;
    }
    p
}

/// The groups of steps around the symbols `ids` (those of the parameters, where the symbol
/// table has them): one per symbol, in the order of first occurrence, with the operators of the
/// plan whose name holds it, in order, each once per occurrence of the symbol in its name.
pub fn coordination(ids: &Vec<Option<usize>>, plan: &Vec<Op>, ground: &GroundProblem) -> (res: Groups)
    requires
        plan_in(ground.operators@, plan@),
    ensures
        groups_view(res@) == coordination_v(ground.operators@, plan@, ids@),
{
    let ghost o = ground.operators@;
    let mut h: Groups = Vec::new();
    let mut k: usize = 0;
    while k < ids.len()
        invariant
            k <= ids@.len(),
            groups_view(h@) == distinct_some(ids@.take(k as int)).map_values(|x: usize| (x, Seq::<Op>::empty())),
        decreases ids@.len() - k,
    {
        let ghost before = groups_view(h@);
        let ghost d = distinct_some(ids@.take(k as int));
        proof {
            assert(before.len() == h@.len());
            assert(before.len() == d.len());
            assert(ids@.take(k + 1).drop_last() =~= ids@.take(k as int));
            assert(ids@.take(k + 1).last() == ids@[k as int]);
        }
        match ids[k] {
            Some(x) => {
                let p = group_of(&h, x);
                if p == h.len() {
                    proof {
                        assert(!d.contains(x)) by {
                            if d.contains(x) {
                                let j = choose|j: int| 0 <= j < d.len() && d[j] == x;
                                assert(before[j] == (h@[j].0, h@[j].1@));
                                assert(before[j] == (d[j], Seq::<Op>::empty()));
                            }
                        }
                    }
                    let ghost hb = h@;
                    let nv: Vec<Op> = Vec::new();
                    h.push((x, nv));
                    proof {
                        let e = d.push(x).map_values(|y: usize| (y, Seq::<Op>::empty()));
                        assert forall|j: int| 0 <= j < h@.len() implies #[trigger] groups_view(h@)[j] == e[j] by {
                            if j < hb.len() {
                                assert(h@[j] == hb[j]);
                                assert(before[j] == (hb[j].0, hb[j].1@));
                            } else {
                                assert(h@[j] == (x, nv));
                                assert(nv@ =~= Seq::<Op>::empty());
                            }
                        }
                        assert(groups_view(h@) =~= e);
                    }
                } else {
                    proof {
                        assert(before[p as int] == (h@[p as int].0, h@[p as int].1@));
                        assert(before[p as int] == (d[p as int], Seq::<Op>::empty()));
                        assert(d.contains(x)) by {
                            assert(d[p as int] == x);
                        }
                    }
                }
            },
            None => {},
        }
        k = k + 1;
    }
    proof {
        assert(ids@.take(k as int) =~= ids@);
    }
    let ghost keys = distinct_some(ids@);
    proof {
        lemma_distinct_some(ids@);
        assert(groups_view(h@).len() == h@.len());
    }
    let mut q: usize = 0;
    while q < plan.len()
        invariant
            q <= plan@.len(),
            o == ground.operators@,
            plan_in(o, plan@),
            keys == distinct_some(ids@),
            forall|j: int, l: int| 0 <= j < l < keys.len() ==> keys[j] != keys[l],
            h@.len() == keys.len(),
            groups_view(h@) == keys.map_values(|x: usize| (x, ops_with(o, plan@.take(q as int), x))),
        decreases plan@.len() - q,
    {
        let op = plan[q];
        assert(plan@[q as int].id < o.len());
        let name = ground.operators.name(op);
        let ghost g0 = groups_view(h@);
        proof {
            assert forall|j: int| 0 <= j < h@.len() implies #[trigger] groups_view(h@)[j] == (g0[j].0, g0[j].1 + Seq::new(
                count_sym(name@.take(0), g0[j].0),
                |c: int| op,
            )) by {
                assert(g0[j].1 + Seq::new(count_sym(name@.take(0), g0[j].0), |c: int| op) =~= g0[j].1);
            }
            assert forall|j: int| 0 <= j < g0.len() implies #[trigger] g0[j].0 == keys[j] by {}
        }
        let mut t: usize = 0;
        while t < name.len()
            invariant
                t <= name@.len(),
                name@ == o[op.id as int].name,
                keys == distinct_some(ids@),
                h@.len() == keys.len(),
                forall|j: int| 0 <= j < h@.len() ==> #[trigger] groups_view(h@)[j] == (g0[j].0, g0[j].1 + Seq::new(
                    count_sym(name@.take(t as int), g0[j].0),
                    |c: int| op,
                )),
                g0.len() == keys.len(),
                forall|j: int| 0 <= j < g0.len() ==> #[trigger] g0[j].0 == keys[j],
                forall|j: int, l: int| 0 <= j < l < keys.len() ==> keys[j] != keys[l],
            decreases name@.len() - t,
        {
            let ghost hb = h@;
            let p = group_of(&h, name[t]);
            proof {
                if p < hb.len() {
                    assert(groups_view(hb)[p as int] == (hb[p as int].0, hb[p as int].1@));
                }
            }
            if p < h.len() {
                h[p].1.push(op);
            }
            proof {
                let nt = name@.take(t + 1);
                assert(nt.drop_last() =~= name@.take(t as int));
                assert(nt.last() == name@[t as int]);
                assert forall|j: int| 0 <= j < h@.len() implies #[trigger] groups_view(h@)[j] == (g0[j].0, g0[j].1 + Seq::new(
                    count_sym(nt, g0[j].0),
                    |c: int| op,
                )) by {
                    let old_v = groups_view(hb)[j];
                    assert(old_v == (hb[j].0, hb[j].1@));
                    assert(old_v == (g0[j].0, g0[j].1 + Seq::new(count_sym(name@.take(t as int), g0[j].0), |c: int| op)));
                    assert(hb[j].0 == g0[j].0);
                    if j == p {
                        assert(groups_view(h@)[j] =~= (g0[j].0, g0[j].1 + Seq::new(count_sym(nt, g0[j].0), |c: int| op)));
                    } else {
                        assert(h@[j] == hb[j]);
                        if p < h@.len() {
                            assert(g0[p as int].0 == name@[t as int]);
                            assert(g0[j].0 != g0[p as int].0);
                        }
                        assert(Seq::new(count_sym(nt, g0[j].0), |c: int| op) =~= Seq::new(
                            count_sym(name@.take(t as int), g0[j].0),
                            |c: int| op,
                        ));
                    }
                }
            }
            t = t + 1;
        }
        proof {
            assert(name@.take(t as int) =~= name@);
            let pq = plan@.take(q + 1);
            assert(pq.drop_last() =~= plan@.take(q as int));
            assert(pq.last() == op);
            assert(groups_view(h@) =~= keys.map_values(|x: usize| (x, ops_with(o, pq, x))));
        }
        q = q + 1;
    }
    proof {
        assert(plan@.take(q as int) =~= plan@);
    }
    h
}

/// How many symbols of `name` are among `keys` (each position of `name` counted once).
pub open spec fn count_in(name: Seq<usize>, keys: Seq<usize>) -> nat
    decreases name.len(),
{
    if name.len() == 0 {
        0
    } else {
        count_in(name.drop_last(), keys) + if keys.contains(name.last()) {
            1nat
        } else {
            0nat
        }
    }
}

/// Whether `k` is one of `keys`.
fn contains_key(keys: &Vec<usize>, k: usize) -> (b: bool)
    ensures
        b == keys@.contains(k),
{
    let mut p: usize = 0;
    while p < keys.len()
        invariant
            p <= keys@.len(),
            forall|j: int| 0 <= j < p ==> keys@[j] != k,
        decreases keys@.len() - p,
    {
        if keys[p] == k {
            assert(keys@[p as int] == k);
            return true;
        }
        p = p + 1;
    }
    false
}

/// The operators of the plan, in order, whose name has as many symbols among those of `ids` as
/// `ids` has entries.
pub open spec fn multiple_v(ops: Seq<OperatorV>, plan: Seq<Op>, ids: Seq<Option<usize>>) -> Seq<Op> {
    flat(plan, |op: Op| if count_in(ops[op.id as int].name, distinct_some(ids)) == ids.len() {
        seq![op]
    } else {
        seq![]
    })
}

/// The operators of the plan, in order, whose name has as many symbols among those of `ids`
/// (those of the parameters, where the symbol table has them) as there are parameters.
pub fn coordinationmultiple(ids: &Vec<Option<usize>>, plan: &Vec<Op>, ground: &GroundProblem) -> (res: Vec<Op>)
    requires
        plan_in(ground.operators@, plan@),
    ensures
        res@ == multiple_v(ground.operators@, plan@, ids@),
{
    let ghost o = ground.operators@;
    let t = ids.len();
    let mut paramid: Vec<usize> = Vec::new();
    let mut k: usize = 0;
    while k < ids.len()
        invariant
            k <= ids@.len(),
            paramid@ == distinct_some(ids@.take(k as int)),
        decreases ids@.len() - k,
    {
        proof {
            assert(ids@.take(k + 1).drop_last() =~= ids@.take(k as int));
            assert(ids@.take(k + 1).last() == ids@[k as int]);
        }
        match ids[k] {
            Some(x) => {
                if !contains_key(&paramid, x) {
                    paramid.push(x);
                }
            },
            None => {},
        }
        k = k + 1;
    }
    proof {
        assert(ids@.take(k as int) =~= ids@);
    }
    let ghost f = |op: Op| if count_in(o[op.id as int].name, distinct_some(ids@)) == ids@.len() {
        seq![op]
    } else {
        seq![]
    };
    let mut out: Vec<Op> = Vec::new();
    let mut q: usize = 0;
    while q < plan.len()
        invariant
            q <= plan@.len(),
            t == ids@.len(),
            o == ground.operators@,
            plan_in(o, plan@),
            paramid@ == distinct_some(ids@),
            f == (|op: Op| if count_in(o[op.id as int].name, distinct_some(ids@)) == ids@.len() {
                seq![op]
            } else {
                seq![]
            }),
            out@ == flat(plan@.take(q as int), f),
        decreases plan@.len() - q,
    {
        let op = plan[q];
        assert(plan@[q as int].id < o.len());
        let name = ground.operators.name(op);
        let mut count: usize = 0;
        let mut c: usize = 0;
        while c < name.len()
            invariant
                c <= name@.len(),
                count == count_in(name@.take(c as int), paramid@),
                count <= c,
            decreases name@.len() - c,
        {
            proof {
                assert(name@.take(c + 1).drop_last() =~= name@.take(c as int));
                assert(name@.take(c + 1).last() == name@[c as int]);
            }
            if contains_key(&paramid, name[c]) {
                count = count + 1;
            }
            c = c + 1;
        }
        proof {
            assert(name@.take(c as int) =~= name@);
            assert(plan@.take(q + 1).drop_last() =~= plan@.take(q as int));
            assert(plan@.take(q + 1).last() == op);
        }
        let ghost before = out@;
        if count == t {
            out.push(op);
            proof {
                assert(f(op) =~= seq![op]);
            }
        } else {
            proof {
                assert(f(op) =~= Seq::<Op>::empty());
            }
        }
        proof {
            assert(out@ =~= flat(plan@.take(q + 1), f));
        }
        q = q + 1;
    }
    proof {
        assert(plan@.take(q as int) =~= plan@);
    }
    out
}

/// The group of the symbol `first` (that of the first parameter, where the symbol table has it)
/// with the operators `liste`; no group if there is no symbol.
pub fn liencoormultisynchro(liste: &Vec<Op>, first: Option<usize>) -> (res: Groups)
    ensures
        groups_view(res@) == match first {
            Some(s) => seq![(s, liste@)],
            None => seq![],
        },
{
    let mut h: Groups = Vec::new();
    match first {
        Some(s) => {
            let mut v: Vec<Op> = Vec::new();
            let mut k: usize = 0;
            while k < liste.len()
                invariant
                    k <= liste@.len(),
                    v@ == liste@.take(k as int),
                decreases liste@.len() - k,
            {
                v.push(liste[k]);
                assert(v@ =~= liste@.take(k + 1));
                k = k + 1;
            }
            assert(liste@.take(k as int) =~= liste@);
            h.push((s, v));
            assert(groups_view(h@) =~= seq![(s, liste@)]);
        },
        None => {
            assert(groups_view(h@) =~= Seq::<(usize, Seq<Op>)>::empty());
        },
    }
    h
}

/// Whether the operator `op` is in one of the groups.
pub open spec fn in_groups(hv: Seq<(usize, Seq<Op>)>, op: Op) -> bool {
    exists|k: int| 0 <= k < hv.len() && (#[trigger] hv[k]).1.contains(op)
}

/// Whether the operator `op` is in one of the groups.
fn in_groups_exec(h: &Groups, op: Op) -> (b: bool)
    ensures
        b == in_groups(groups_view(h@), op),
{
    let ghost hv = groups_view(h@);
    let mut k: usize = 0;
    while k < h.len()
        invariant
            k <= h@.len(),
            hv == groups_view(h@),
            forall|j: int| 0 <= j < k ==> !(#[trigger] hv[j]).1.contains(op),
        decreases h@.len() - k,
    {
        let v = &h[k].1;
        assert(hv[k as int] == (h@[k as int].0, v@));
        let mut j: usize = 0;
        while j < v.len()
            invariant
                j <= v@.len(),
                k < h@.len(),
                hv == groups_view(h@),
                v@ == hv[k as int].1,
                forall|i: int| 0 <= i < j ==> v@[i] != op,
            decreases v@.len() - j,
        {
            if v[j] == op {
                assert(v@[j as int] == op);
                assert(hv[k as int].1.contains(op));
                return true;
            }
            j = j + 1;
        }
        k = k + 1;
    }
    false
}

/// The entry at row `r`, column `c` of the support matrix `m` weighted by the groups: within the
/// rows of the `t` steps and the first `t + 1` columns, an entry 1 becomes `poids` when the
/// operator of step `r` is in one of the groups (`when_in` true) or in none (`when_in`
/// false).
pub open spec fn param_entry(
    m: Seq<Seq<i32>>,
    hv: Seq<(usize, Seq<Op>)>,
    plan: Seq<Op>,
    poids: i32,
    when_in: bool,
    r: int,
    c: int,
) -> i32 {
    if 0 <= r < plan.len() && 0 <= c <= plan.len() && m[r][c] == 1 && in_groups(hv, plan[r]) == when_in {
        poids
    } else {
        m[r][c]
    }
}

/// The support matrix `m` weighted by the groups, as `param_entry` says.
pub open spec fn param_weighted(m: Seq<Seq<i32>>, hv: Seq<(usize, Seq<Op>)>, plan: Seq<Op>, poids: i32, when_in: bool) -> Seq<
    Seq<i32>,
> {
    Seq::new(m.len(), |r: int| Seq::new(m[r].len(), |c: int| param_entry(m, hv, plan, poids, when_in, r, c)))
}

/// The support matrix weighted by the groups.
fn weight_by_groups(poids: i32, support: &IntMatrix, h: &Groups, plan: &Vec<Op>, when_in: bool) -> (res: IntMatrix)
    requires
        support.wf(),
        support@.len() >= plan@.len(),
        support.spec_ncols() > plan@.len(),
    ensures
        res.wf(),
        res.spec_ncols() == support.spec_ncols(),
        res@ == param_weighted(support@, groups_view(h@), plan@, poids, when_in),
{
    let ghost m0 = support@;
    let ghost hv = groups_view(h@);
    let ghost nc = support.spec_ncols() as int;
    let mut out = support.copy();
    let t = plan.len();
    let ncx = support.ncols();
    let mut r: usize = 0;
    while r < t
        invariant
            r <= t == plan@.len(),
            support@ == m0,
            support.wf(),
            m0.len() >= t,
            nc == support.spec_ncols() > t,
            ncx == nc,
            hv == groups_view(h@),
            out.wf(),
            out.spec_ncols() == nc,
            out@.len() == m0.len(),
            forall|i: int, j: int| 0 <= i < m0.len() && 0 <= j < nc ==> #[trigger] out.at(i, j) == if i < r {
                param_entry(m0, hv, plan@, poids, when_in, i, j)
            } else {
                m0[i][j]
            },
        decreases t - r,
    {
        let used = in_groups_exec(h, plan[r]);
        let mut c: usize = 0;
        while c < t + 1
            invariant
                r < t == plan@.len(),
                c <= t + 1,
                support@ == m0,
                support.wf(),
                m0.len() >= t,
                nc == support.spec_ncols() > t,
                ncx == nc,
                hv == groups_view(h@),
                used == in_groups(hv, plan@[r as int]),
                out.wf(),
                out.spec_ncols() == nc,
                out@.len() == m0.len(),
                forall|i: int, j: int| 0 <= i < m0.len() && 0 <= j < nc ==> #[trigger] out.at(i, j) == if i < r || (i == r && j < c) {
                    param_entry(m0, hv, plan@, poids, when_in, i, j)
                } else {
                    m0[i][j]
                },
            decreases t + 1 - c,
        {
            let ghost ob = out;
            if used == when_in && support.get(r, c) == 1 {
                out.set(r, c, poids);
            }
            proof {
                assert forall|i: int, j: int| 0 <= i < m0.len() && 0 <= j < nc implies #[trigger] out.at(i, j) == if i < r || (i
                    == r && j < c + 1) {
                    param_entry(m0, hv, plan@, poids, when_in, i, j)
                } else {
                    m0[i][j]
                } by {
                    assert(ob.at(i, j) == if i < r || (i == r && j < c) {
                        param_entry(m0, hv, plan@, poids, when_in, i, j)
                    } else {
                        m0[i][j]
                    });
                }
            }
            c = c + 1;
        }
        proof {
            assert forall|i: int, j: int| 0 <= i < m0.len() && 0 <= j < nc implies #[trigger] out.at(i, j) == if i < r + 1 {
                param_entry(m0, hv, plan@, poids, when_in, i, j)
            } else {
                m0[i][j]
            } by {
                if i == r && j > t {
                    assert(out.at(i, j) == m0[i][j]);
                }
            }
        }
        r = r + 1;
    }
    proof {
        let w = param_weighted(m0, hv, plan@, poids, when_in);
        assert forall|i: int| 0 <= i < m0.len() implies (#[trigger] out@[i]) =~= w[i] by {
            assert(out@[i].len() == nc && w[i].len() == nc);
            assert forall|j: int| 0 <= j < nc implies out@[i][j] == w[i][j] by {
                assert(out.at(i, j) == if i < r {
                    param_entry(m0, hv, plan@, poids, when_in, i, j)
                } else {
                    m0[i][j]
                });
                if i >= r {
                    assert(i >= t);
                }
            }
        }
        assert(out@ =~= w);
    }
    out
}

/// The support matrix in which the links from the steps whose operator is in one of the groups
/// (entries 1 in their rows, within the first `t + 1` columns) weigh `poids`.
pub fn poidsparametredesavantage(poids: i32, support: &IntMatrix, h: &Groups, plan: &Vec<Op>, ground: &GroundProblem) -> (res:
    IntMatrix)
    requires
        support.wf(),
        support@.len() >= plan@.len(),
        support.spec_ncols() > plan@.len(),
    ensures
        res.wf(),
        res.spec_ncols() == support.spec_ncols(),
        res@ == param_weighted(support@, groups_view(h@), plan@, poids, true),
{
    weight_by_groups(poids, support, h, plan, true)
}

/// The support matrix in which the links from the steps whose operator is in none of the groups
/// (entries 1 in their rows, within the first `t + 1` columns) weigh `poids`.
pub fn poidsparametreavantage(poids: i32, support: &IntMatrix, h: &Groups, plan: &Vec<Op>, ground: &GroundProblem) -> (res:
    IntMatrix)
    requires
        support.wf(),
        support@.len() >= plan@.len(),
        support.spec_ncols() > plan@.len(),
    ensures
        res.wf(),
        res.spec_ncols() == support.spec_ncols(),
        res@ == param_weighted(support@, groups_view(h@), plan@, poids, false),
{
    weight_by_groups(poids, support, h, plan, false)
}

/// The symbol of the last group that holds the operator `op`, if any.
pub open spec fn last_group(hv: Seq<(usize, Seq<Op>)>, op: Op) -> Option<usize>
    decreases hv.len(),
{
    if hv.len() == 0 {
        None
    } else if hv.last().1.contains(op) {
        Some(hv.last().0)
    } else {
        last_group(hv.drop_last(), op)
    }
}

/// How many times the operator `op` occurs in the groups of a symbol other than `g`.
pub open spec fn other_count(hv: Seq<(usize, Seq<Op>)>, op: Op, g: usize) -> nat
    decreases hv.len(),
{
    if hv.len() == 0 {
        0
    } else {
        other_count(hv.drop_last(), op, g) + if hv.last().0 != g {
            occ(hv.last().1, op)
        } else {
            0nat
        }
    }
}

/// The records that `synchronisation` gives for step `c` and its support link to step `sup`:
/// when `m` has a 1 at row `c`, column `sup` and the operator of step `c` is in a group (the
/// last one that holds it, of symbol `g`), the record of step `c` once per occurrence of the
/// operator of step `sup` in a group of another symbol.
pub open spec fn sync_cell(m: Seq<Seq<i32>>, hv: Seq<(usize, Seq<Op>)>, plan: Seq<Op>, c: int) -> spec_fn(int) -> Seq<Resume> {
    |sup: int|
        if m[c][sup] == 1 {
            match last_group(hv, plan[c]) {
                Some(g) => Seq::new(other_count(hv, plan[sup], g), |k: int| Resume::spec_new(Some(plan[c]), c as i32)),
                None => seq![],
            }
        } else {
            seq![]
        }
}

/// The records that `synchronisation` gives, step by step.
pub open spec fn sync_rows(m: Seq<Seq<i32>>, hv: Seq<(usize, Seq<Op>)>, plan: Seq<Op>) -> spec_fn(int) -> Seq<Resume> {
    |c: int| over_steps(plan.len() as int, sync_cell(m, hv, plan, c))
}

/// The steps of the plan linked by support to a step of another group: for each step `c` whose
/// operator is in a group (the last one that holds it) and each step `sup` with a 1 at row `c`,
/// column `sup` of the support matrix, the record of step `c` once per occurrence of the
/// operator of step `sup` in a group of another symbol (`sync_rows`).
pub fn synchronisation(h: &Groups, support: &IntMatrix, plan: &Vec<Op>) -> (res: Vec<Resume>)
    requires
        plan@.len() <= i32::MAX,
        support.wf(),
        support@.len() >= plan@.len(),
        support.spec_ncols() >= plan@.len(),
    ensures
        res@ == over_steps(plan@.len() as int, sync_rows(support@, groups_view(h@), plan@)),
{
    let ghost hv = groups_view(h@);
    let ghost m = support@;
    let t = plan.len();
    let mut out: Vec<Resume> = Vec::new();
    let mut count: usize = 0;
    while count < t
        invariant
            count <= t == plan@.len() <= i32::MAX,
            hv == groups_view(h@),
            m == support@,
            support.wf(),
            support@.len() >= t,
            support.spec_ncols() >= t,
            out@ == over_steps(count as int, sync_rows(m, hv, plan@)),
        decreases t - count,
    {
        let i = plan[count];
        let mut groupe: Option<usize> = None;
        let mut k: usize = 0;
        while k < h.len()
            invariant
                k <= h@.len(),
                hv == groups_view(h@),
                groupe == last_group(hv.take(k as int), i),
            decreases h@.len() - k,
        {
            let v = &h[k].1;
            proof {
                assert(hv[k as int] == (h@[k as int].0, v@));
                assert(hv.take(k + 1).drop_last() =~= hv.take(k as int));
                assert(hv.take(k + 1).last() == hv[k as int]);
            }
            let mut found = false;
            let mut j: usize = 0;
            while j < v.len()
                invariant
                    j <= v@.len(),
                    found == v@.take(j as int).contains(i),
                decreases v@.len() - j,
            {
                proof {
                    assert(v@.take(j + 1) =~= v@.take(j as int).push(v@[j as int]));
                    if v@.take(j as int).contains(i) {
                        let w = choose|w: int| 0 <= w < j && #[trigger] v@.take(j as int)[w] == i;
                        assert(v@.take(j + 1)[w] == i);
                    }
                    if v@[j as int] == i {
                        assert(v@.take(j + 1)[j as int] == i);
                    }
                    if v@.take(j + 1).contains(i) {
                        let w = choose|w: int| 0 <= w < j + 1 && #[trigger] v@.take(j + 1)[w] == i;
                        if w < j {
                            assert(v@.take(j as int)[w] == i);
                        }
                    }
                }
                if v[j] == i {
                    found = true;
                }
                j = j + 1;
            }
            proof {
                assert(v@.take(j as int) =~= v@);
            }
            if found {
                groupe = Some(h[k].0);
            }
            k = k + 1;
        }
        proof {
            assert(hv.take(k as int) =~= hv);
        }
        let ghost rec = Resume::spec_new(Some(plan@[count as int]), count as i32);
        let ghost before_row = out@;
        let mut sup: usize = 0;
        while sup < t
            invariant
                count < t == plan@.len() <= i32::MAX,
                sup <= t,
                i == plan@[count as int],
                hv == groups_view(h@),
                m == support@,
                support.wf(),
                support@.len() >= t,
                support.spec_ncols() >= t,
                groupe == last_group(hv, i),
                rec == Resume::spec_new(Some(plan@[count as int]), count as i32),
                out@ == before_row + over_steps(sup as int, sync_cell(m, hv, plan@, count as int)),
            decreases t - sup,
        {
            let ghost before = out@;
            if support.get(count, sup) == 1 {
                let target = plan[sup];
                let mut k2: usize = 0;
                while k2 < h.len()
                    invariant
                        k2 <= h@.len(),
                        count < t == plan@.len() <= i32::MAX,
                        i == plan@[count as int],
                        hv == groups_view(h@),
                        groupe == last_group(hv, i),
                        rec == Resume::spec_new(Some(plan@[count as int]), count as i32),
                        out@ == before + match groupe {
                            Some(g) => Seq::new(other_count(hv.take(k2 as int), target, g), |z: int| rec),
                            None => seq![],
                        },
                    decreases h@.len() - k2,
                {
                    let key = h[k2].0;
                    let v = &h[k2].1;
                    let ghost mid = out@;
                    proof {
                        assert(hv[k2 as int] == (key, v@));
                        assert(hv.take(k2 + 1).drop_last() =~= hv.take(k2 as int));
                        assert(hv.take(k2 + 1).last() == hv[k2 as int]);
                    }
                    let mut j: usize = 0;
                    while j < v.len()
                        invariant
                            j <= v@.len(),
                            count < t == plan@.len() <= i32::MAX,
                            i == plan@[count as int],
                            rec == Resume::spec_new(Some(plan@[count as int]), count as i32),
                            out@ == mid + match groupe {
                                Some(g) => if key != g {
                                    Seq::new(occ(v@.take(j as int), target), |z: int| rec)
                                } else {
                                    seq![]
                                },
                                None => seq![],
                            },
                        decreases v@.len() - j,
                    {
                        let ghost ob = out@;
                        proof {
                            assert(v@.take(j + 1).drop_last() =~= v@.take(j as int));
                            assert(v@.take(j + 1).last() == v@[j as int]);
                        }
                        proof {
                            let c0 = occ(v@.take(j as int), target);
                            if v@[j as int] == target {
                                assert(occ(v@.take(j + 1), target) == c0 + 1);
                            } else {
                                assert(occ(v@.take(j + 1), target) == c0);
                            }
                        }
                        if v[j] == target {
                            match groupe {
                                Some(g) => {
                                    if key != g {
                                        let r = newresume(i, count as i32);
                                        out.push(r);
                                        proof {
                                            let c0 = occ(v@.take(j as int), target);
                                            assert(Seq::new(c0 + 1, |z: int| rec) =~= Seq::new(c0, |z: int| rec).push(rec));
                                        }
                                    }
                                },
                                None => {},
                            }
                        }
                        j = j + 1;
                    }
                    proof {
                        assert(v@.take(j as int) =~= v@);
                        if let Some(g) = groupe {
                            let c1 = other_count(hv.take(k2 as int), target, g);
                            let c2 = if key != g { occ(v@, target) } else { 0nat };
                            assert(Seq::new(c1, |z: int| rec) + Seq::new(c2, |z: int| rec) =~= Seq::new(c1 + c2, |z: int| rec));
                            if key == g {
                                assert(out@ =~= mid);
                            }
                        } else {
                            assert(out@ =~= mid);
                        }
                    }
                    k2 = k2 + 1;
                }
                proof {
                    assert(hv.take(k2 as int) =~= hv);
                }
            }
            proof {
                let cell = sync_cell(m, hv, plan@, count as int);
                assert(out@ =~= before + cell(sup as int));
                assert(out@ =~= before_row + over_steps(sup + 1, cell));
            }
            sup = sup + 1;
        }
        count = count + 1;
    }
    out
}

} // verus!
