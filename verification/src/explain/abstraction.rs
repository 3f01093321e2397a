//! Abstraction of a plan: the operators (or actions) whose steps support each other both ways.
use vstd::prelude::*;
use crate::classical::state::Op;
use crate::classical::GroundProblem;
use crate::explain::state2::Unique;
use crate::explain::matrix::IntMatrix;
use crate::explain::explain::plan_in;
use crate::explain::necessity::{distinct_ops, lemma_distinct_ops, occ, uniquement, unique_view, uniques};
use crate::explain::threats::{WriteV, apply_writes, lemma_apply_writes_concat, zeros, over_steps};

verus! {

/// The position of the first occurrence of `x` in `s` (its length if none).
pub open spec fn index_in<T>(s: Seq<T>, x: T) -> int
    decreases s.len(),
{
    if s.len() == 0 {
        0
    } else if index_in(s.drop_last(), x) < s.len() - 1 {
        index_in(s.drop_last(), x)
    } else if s.last() == x {
        s.len() - 1
    } else {
        s.len() as int
    }
}

/// `index_in` is the position of the first occurrence, or the length if there is none.
pub proof fn lemma_index_in<T>(s: Seq<T>, x: T)
    ensures
        0 <= index_in(s, x) <= s.len(),
        index_in(s, x) < s.len() ==> s[index_in(s, x)] == x,
        forall|k: int| 0 <= k < index_in(s, x) ==> s[k] != x,
    decreases s.len(),
{
    if s.len() > 0 {
        lemma_index_in(s.drop_last(), x);
        let d = s.drop_last();
        assert forall|k: int| 0 <= k < index_in(s, x) implies s[k] != x by {
            if k < d.len() {
                assert(d[k] == s[k]);
            }
        }
        if index_in(d, x) < d.len() {
            assert(d[index_in(d, x)] == s[index_in(d, x)]);
        }
    }
}

/// The writes of `abstractionop` for the entry at row `l`, column `c` of the support matrix:
/// where it is 1, a 1 at the row of the operator of step `l` and the column of that of step `c`
/// (column 0 when the two operators are the same).
pub open spec fn op_link_write(m: Seq<Seq<i32>>, plan: Seq<Op>, v: Seq<Op>, l: int) -> spec_fn(int) -> Seq<WriteV> {
    |c: int|
        if m[l][c] == 1 {
            seq![(index_in(v, plan[l]), if plan[c] == plan[l] {
                0int
            } else {
                index_in(v, plan[c])
            }, 1i32)]
        } else {
            seq![]
        }
}

/// The writes of `abstractionop`, row by row of the support matrix (`cols` columns).
pub open spec fn op_link_rows(m: Seq<Seq<i32>>, plan: Seq<Op>, v: Seq<Op>, cols: int) -> spec_fn(int) -> Seq<WriteV> {
    |l: int| over_steps(cols, op_link_write(m, plan, v, l))
}

/// The matrix between the operators of the plan (in the order of `distinct_ops`) of
/// `abstractionop`: a 1 where a step of the first supports a step of the second, within the
/// first `rows - 2` rows and `cols - 2` columns of the support matrix `m`.
pub open spec fn op_links(m: Seq<Seq<i32>>, cols: int, plan: Seq<Op>) -> Seq<Seq<i32>> {
    let v = distinct_ops(plan);
    apply_writes(zeros(v.len() as int), over_steps(m.len() - 2, op_link_rows(m, plan, v, cols - 2)))
}

/// The groups of `abstractionop` with the operator at position `l`: for each later position `c`
/// (up to the last but one), the pair of the operators at `c` and `l` where each supports the
/// other.
pub open spec fn op_group_row(a: Seq<Seq<i32>>, v: Seq<Op>, l: int) -> spec_fn(int) -> Seq<Seq<Op>> {
    |c: int|
        if c >= l && a[l][c] == 1 && a[c][l] == 1 {
            seq![seq![v[c], v[l]]]
        } else {
            seq![]
        }
}

/// The groups of `abstractionop`, by position of the first operator (up to the last but one).
pub open spec fn op_groups(a: Seq<Seq<i32>>, v: Seq<Op>) -> spec_fn(int) -> Seq<Seq<Op>> {
    |l: int| over_steps(v.len() - 1, op_group_row(a, v, l))
}

/// What a list of groups holds.
pub open spec fn groups_of<T>(g: Seq<Vec<T>>) -> Seq<Seq<T>> {
    g.map_values(|x: Vec<T>| x@)
}

/// The operators of the plan, each once, in the order of their first occurrence.
fn operators_of(plan: &Vec<Op>) -> (res: Vec<Op>)
    ensures
        res@ == distinct_ops(plan@),
{
    let mut cp: Vec<Op> = Vec::new();
    let mut k: usize = 0;
    while k < plan.len()
        invariant
            k <= plan@.len(),
            cp@ == plan@.take(k as int),
        decreases plan@.len() - k,
    {
        cp.push(plan[k]);
        assert(cp@ =~= plan@.take(k + 1));
        k = k + 1;
    }
    assert(plan@.take(k as int) =~= plan@);
    let un = uniquement(cp);
    let ghost uv = un@.map_values(|u: Unique| unique_view(u));
    let mut v: Vec<Op> = Vec::new();
    let mut q: usize = 0;
    while q < un.len()
        invariant
            q <= un@.len(),
            uv == un@.map_values(|u: Unique| unique_view(u)),
            uv == uniques(plan@),
            v@ == distinct_ops(plan@).take(q as int),
        decreases un@.len() - q,
    {
        v.push(un[q].operateur());
        proof {
            assert(uv.len() == un@.len());
            assert(uniques(plan@).len() == distinct_ops(plan@).len());
            assert(uniques(plan@)[q as int] == (distinct_ops(plan@)[q as int], occ(plan@, distinct_ops(plan@)[q as int]) == 1));
            assert(uv[q as int] == unique_view(un@[q as int]));
            assert(uv[q as int].0 == distinct_ops(plan@)[q as int]);
            assert(v@ =~= distinct_ops(plan@).take(q + 1));
        }
        q = q + 1;
    }
    assert(uv.len() == un@.len());
    assert(uniques(plan@).len() == distinct_ops(plan@).len());
    assert(distinct_ops(plan@).take(q as int) =~= distinct_ops(plan@));
    v
}

/// The positions of `op1` and `op2` among `v`, as `abstractionop` reads them: that of `op2` is
/// left at 0 when the two are the same.
fn places(v: &Vec<Op>, op1: Op, op2: Op) -> (res: (usize, usize))
    requires
        forall|i: int, j: int| 0 <= i < j < v@.len() ==> v@[i] != v@[j],
        v@.contains(op1),
        v@.contains(op2),
    ensures
        res.0 == index_in(v@, op1),
        res.1 == if op2 == op1 {
            0
        } else {
            index_in(v@, op2)
        },
        res.0 < v@.len(),
        res.1 < v@.len(),
{
    proof {
        lemma_index_in(v@, op1);
        lemma_index_in(v@, op2);
        let w1 = choose|w: int| 0 <= w < v@.len() && v@[w] == op1;
        let w2 = choose|w: int| 0 <= w < v@.len() && v@[w] == op2;
    }
    let mut p1: usize = 0;
    let mut p2: usize = 0;
    let mut count: usize = 0;
    while count < v.len()
        invariant
            count <= v@.len(),
            forall|i: int, j: int| 0 <= i < j < v@.len() ==> v@[i] != v@[j],
            0 <= index_in(v@, op1) < v@.len(),
            v@[index_in(v@, op1)] == op1,
            0 <= index_in(v@, op2) < v@.len(),
            v@[index_in(v@, op2)] == op2,
            p1 == if index_in(v@, op1) < count {
                index_in(v@, op1)
            } else {
                0
            },
            p2 == if index_in(v@, op2) < count && op2 != op1 {
                index_in(v@, op2)
            } else {
                0
            },
        decreases v@.len() - count,
    {
        if v[count] == op1 {
            p1 = count;
        } else if v[count] == op2 {
            p2 = count;
        }
        count = count + 1;
    }
    (p1, p2)
}

/// Whether each 1 that `abstractionop` reads in the support matrix (within the first
/// `rows - 2` rows and `cols - 2` columns) links two steps of the plan.
pub open spec fn links_in_plan(m: Seq<Seq<i32>>, cols: int, n: int) -> bool {
    forall|l: int, c: int| 0 <= l < m.len() - 2 && 0 <= c < cols - 2 && #[trigger] m[l][c] == 1 ==> l < n && c < n
}

/// The pairs of operators of the plan whose steps support each other both ways (`op_groups` over
/// `op_links`): the support matrix `support` is read within its first `rows - 2` rows and
/// `cols - 2` columns, and each pair is given as the later operator (in the order of first
/// occurrence), then the earlier one.
#[verifier::rlimit(40)]
pub fn abstractionop(support: &IntMatrix, plan: &Vec<Op>, ground: &GroundProblem) -> (res: Vec<Vec<Op>>)
    requires
        0 < plan@.len(),
        support.wf(),
        support@.len() >= 2,
        support.spec_ncols() >= 2,
        links_in_plan(support@, support.spec_ncols() as int, plan@.len() as int),
    ensures
        groups_of(res@) == over_steps(
            distinct_ops(plan@).len() - 1,
            op_groups(op_links(support@, support.spec_ncols() as int, plan@), distinct_ops(plan@)),
        ),
{
    let ghost m = support@;
    let ghost cols = support.spec_ncols() as int;
    let row = support.nrows();
    let col = support.ncols();
    let v = operators_of(plan);
    let ghost vs = v@;
    proof {
        lemma_distinct_ops(plan@);
        assert(plan@.len() > 0);
        assert(distinct_ops(plan@).contains(plan@[0])) by {
            assert(occ(plan@, plan@[0]) >= 1) by {
                lemma_occ_pos(plan@, 0);
            }
        }
    }
    let nbop = v.len();
    let mut matrice = IntMatrix::from_diagonal_element(nbop, nbop, 0);
    let ghost z = zeros(nbop as int);
    proof {
        assert forall|r: int| 0 <= r < nbop implies #[trigger] matrice@[r] =~= z[r] by {
            assert forall|c: int| 0 <= c < nbop implies matrice@[r][c] == z[r][c] by {
                assert(matrice.at(r, c) == 0);
            }
        }
        assert(matrice@ =~= z);
    }
    let mut ligne: usize = 0;
    while ligne < row - 2
        invariant
            row == m.len(),
            col == cols,
            cols == support.spec_ncols(),
            row >= 2,
            col >= 2,
            m == support@,
            support.wf(),
            ligne <= row - 2,
            vs == v@,
            vs == distinct_ops(plan@),
            nbop == vs.len(),
            forall|i: int, j: int| 0 <= i < j < vs.len() ==> vs[i] != vs[j],
            forall|o: Op| #[trigger] vs.contains(o) <==> occ(plan@, o) >= 1,
            links_in_plan(m, cols, plan@.len() as int),
            z == zeros(nbop as int),
            matrice.wf(),
            matrice@.len() == nbop,
            matrice.spec_ncols() == nbop,
            matrice@ == apply_writes(z, over_steps(ligne as int, op_link_rows(m, plan@, vs, cols - 2))),
        decreases row - 2 - ligne,
    {
        let ghost base = over_steps(ligne as int, op_link_rows(m, plan@, vs, cols - 2));
        let mut colonnes: usize = 0;
        while colonnes < col - 2
            invariant
                row == m.len(),
                col == cols,
                cols == support.spec_ncols(),
                row >= 2,
                col >= 2,
                m == support@,
                support.wf(),
                ligne < row - 2,
                colonnes <= col - 2,
                vs == v@,
                vs == distinct_ops(plan@),
                nbop == vs.len(),
                forall|i: int, j: int| 0 <= i < j < vs.len() ==> vs[i] != vs[j],
                forall|o: Op| #[trigger] vs.contains(o) <==> occ(plan@, o) >= 1,
                links_in_plan(m, cols, plan@.len() as int),
                z == zeros(nbop as int),
                matrice.wf(),
                matrice@.len() == nbop,
                matrice.spec_ncols() == nbop,
                matrice@ == apply_writes(z, base + over_steps(colonnes as int, op_link_write(m, plan@, vs, ligne as int))),
            decreases col - 2 - colonnes,
        {
            let ghost done = base + over_steps(colonnes as int, op_link_write(m, plan@, vs, ligne as int));
            let ghost w = op_link_write(m, plan@, vs, ligne as int)(colonnes as int);
            if support.get(ligne, colonnes) == 1 {
                let op1 = plan[ligne];
                let op2 = plan[colonnes];
                proof {
                    lemma_occ_pos(plan@, ligne as int);
                    lemma_occ_pos(plan@, colonnes as int);
                }
                let (placeop1, placeop2) = places(&v, op1, op2);
                let ghost mb = matrice@;
                matrice.set(placeop1, placeop2, 1);
                proof {
                    assert(w =~= seq![(placeop1 as int, placeop2 as int, 1i32)]);
                    reveal_with_fuel(apply_writes, 2);
                    assert(w.drop_last() =~= Seq::<WriteV>::empty());
                    assert(matrice@ == apply_writes(mb, w));
                }
            } else {
                proof {
                    assert(w =~= Seq::<WriteV>::empty());
                    assert(apply_writes(matrice@, w) == matrice@);
                }
            }
            proof {
                lemma_apply_writes_concat(z, done, w);
                assert(done + w =~= base + over_steps(colonnes + 1, op_link_write(m, plan@, vs, ligne as int)));
            }
            colonnes = colonnes + 1;
        }
        proof {
            assert(base + over_steps(cols - 2, op_link_write(m, plan@, vs, ligne as int)) =~= over_steps(
                ligne + 1,
                op_link_rows(m, plan@, vs, cols - 2),
            ));
        }
        ligne = ligne + 1;
    }
    let ghost a = matrice@;
    proof {
        assert(a == op_links(m, cols, plan@));
    }
    let mut out: Vec<Vec<Op>> = Vec::new();
    let mut l: usize = 0;
    while l < nbop - 1
        invariant
            nbop == vs.len() >= 1,
            vs == v@,
            a == matrice@,
            matrice.wf(),
            matrice@.len() == nbop,
            matrice.spec_ncols() == nbop,
            l <= nbop - 1,
            groups_of(out@) == over_steps(l as int, op_groups(a, vs)),
        decreases nbop - 1 - l,
    {
        let ghost base = groups_of(out@);
        let mut c: usize = l;
        proof {
            assert forall|k: int| 0 <= k < l implies #[trigger] op_group_row(a, vs, l as int)(k) =~= Seq::<Seq<Op>>::empty() by {}
            lemma_over_steps_empty(l as int, op_group_row(a, vs, l as int));
        }
        while c < nbop - 1
            invariant
                nbop == vs.len() >= 1,
                vs == v@,
                a == matrice@,
                matrice.wf(),
                matrice@.len() == nbop,
                matrice.spec_ncols() == nbop,
                l < nbop - 1,
                l <= c <= nbop - 1,
                groups_of(out@) == base + over_steps(c as int, op_group_row(a, vs, l as int)),
            decreases nbop - 1 - c,
        {
            let ghost before = groups_of(out@);
            if matrice.get(l, c) == 1 && matrice.get(c, l) == 1 {
                let mut groupe: Vec<Op> = Vec::new();
                groupe.push(v[c]);
                groupe.push(v[l]);
                out.push(groupe);
                proof {
                    assert(groupe@ =~= seq![vs[c as int], vs[l as int]]);
                    assert(groups_of(out@) =~= before.push(groupe@));
                }
            }
            proof {
                assert(groups_of(out@) =~= base + over_steps(c + 1, op_group_row(a, vs, l as int)));
            }
            c = c + 1;
        }
        l = l + 1;
    }
    out
}

/// Each operator of the plan occurs in it.
proof fn lemma_occ_pos(plan: Seq<Op>, k: int)
    requires
        0 <= k < plan.len(),
    ensures
        occ(plan, plan[k]) >= 1,
    decreases plan.len(),
{
    if k < plan.len() - 1 {
        lemma_occ_pos(plan.drop_last(), k);
    }
}

/// Concatenating only empty sequences gives the empty sequence.
proof fn lemma_over_steps_empty<T>(k: int, g: spec_fn(int) -> Seq<T>)
    requires
        forall|j: int| 0 <= j < k ==> #[trigger] g(j) =~= Seq::<T>::empty(),
    ensures
        over_steps(k, g) =~= Seq::<T>::empty(),
    decreases k,
{
    if k > 0 {
        lemma_over_steps_empty(k - 1, g);
    }
}

/// The values of `s`, each once, in the order of their first occurrence.
pub open spec fn distinct_syms(s: Seq<usize>) -> Seq<usize>
    decreases s.len(),
{
    if s.len() == 0 {
        seq![]
    } else {
        let d = distinct_syms(s.drop_last());
        if d.contains(s.last()) {
            d
        } else {
            d.push(s.last())
        }
    }
}

/// A value is listed by `distinct_syms` exactly when it occurs, and it is listed once.
pub proof fn lemma_distinct_syms(s: Seq<usize>)
    ensures
        forall|x: usize| #[trigger] distinct_syms(s).contains(x) <==> s.contains(x),
        forall|i: int, j: int| 0 <= i < j < distinct_syms(s).len() ==> distinct_syms(s)[i] != distinct_syms(s)[j],
    decreases s.len(),
{
    if s.len() > 0 {
        let t = s.drop_last();
        lemma_distinct_syms(t);
        let d = distinct_syms(t);
        assert forall|x: usize| #[trigger] distinct_syms(s).contains(x) <==> s.contains(x) by {
            if t.contains(x) {
                let k = choose|k: int| 0 <= k < t.len() && t[k] == x;
                assert(s[k] == x);
            }
            if s.contains(x) {
                let k = choose|k: int| 0 <= k < s.len() && s[k] == x;
                if k < t.len() {
                    assert(t[k] == x);
                }
            }
            if !d.contains(s.last()) {
                if distinct_syms(s).contains(x) {
                    let k = choose|k: int| 0 <= k < distinct_syms(s).len() && distinct_syms(s)[k] == x;
                    if k < d.len() {
                        assert(d[k] == x);
                    }
                }
                if d.contains(x) {
                    let k = choose|k: int| 0 <= k < d.len() && d[k] == x;
                    assert(distinct_syms(s)[k] == x);
                }
                if x == s.last() {
                    assert(distinct_syms(s)[d.len() as int] == x);
                }
            }
        }
    }
}

/// The action symbol (first symbol of the name) of each step of the plan.
pub open spec fn action_syms(ground: GroundProblem, plan: Seq<Op>) -> Seq<usize> {
    plan.map_values(|op: Op| ground.operators@[op.id as int].name[0])
}

/// The writes of `abstractionaction` for the entry at row `l`, column `c` of the support
/// matrix: where it is 1, a 1 at the row of the action of step `l` and the column of that of
/// step `c`.
pub open spec fn action_link_write(m: Seq<Seq<i32>>, syms: Seq<usize>, v: Seq<usize>, l: int) -> spec_fn(int) -> Seq<WriteV> {
    |c: int|
        if m[l][c] == 1 {
            seq![(index_in(v, syms[l]), index_in(v, syms[c]), 1i32)]
        } else {
            seq![]
        }
}

/// The writes of `abstractionaction`, row by row of the support matrix (`cols` columns).
pub open spec fn action_link_rows(m: Seq<Seq<i32>>, syms: Seq<usize>, v: Seq<usize>, cols: int) -> spec_fn(int) -> Seq<WriteV> {
    |l: int| over_steps(cols, action_link_write(m, syms, v, l))
}

/// The matrix between the actions of the plan (in the order of first occurrence) of
/// `abstractionaction`: a 1 where a step of the first supports a step of the second, within the
/// first `rows - 2` rows and `cols - 2` columns of the support matrix `m`.
pub open spec fn action_links(m: Seq<Seq<i32>>, cols: int, syms: Seq<usize>) -> Seq<Seq<i32>> {
    let v = distinct_syms(syms);
    apply_writes(zeros(v.len() as int), over_steps(m.len() - 2, action_link_rows(m, syms, v, cols - 2)))
}

/// The groups of `abstractionaction` with the action at position `l`: for each later position
/// `c`, the pair of the actions at `c` and `l` where each supports the other.
pub open spec fn action_group_row(a: Seq<Seq<i32>>, v: Seq<usize>, l: int) -> spec_fn(int) -> Seq<Seq<usize>> {
    |c: int|
        if c >= l && a[l][c] == 1 && a[c][l] == 1 {
            seq![seq![v[c], v[l]]]
        } else {
            seq![]
        }
}

/// The groups of `abstractionaction`, by position of the first action.
pub open spec fn action_groups(a: Seq<Seq<i32>>, v: Seq<usize>) -> spec_fn(int) -> Seq<Seq<usize>> {
    |l: int| over_steps(v.len() as int, action_group_row(a, v, l))
}

/// Whether the operators of the plan all have a name.
pub open spec fn named_plan(ground: GroundProblem, plan: Seq<Op>) -> bool {
    &&& plan_in(ground.operators@, plan)
    &&& forall|k: int| 0 <= k < plan.len() ==> ground.operators@[(#[trigger] plan[k]).id as int].name.len() > 0
}

/// The pairs of actions of the plan whose steps support each other both ways (`action_groups`
/// over `action_links`): the support matrix `support` is read within its first `rows - 2` rows
/// and `cols - 2` columns, and each pair is given as the later action (in the order of first
/// occurrence), then the earlier one.
#[verifier::rlimit(40)]
pub fn abstractionaction(support: &IntMatrix, plan: &Vec<Op>, ground: &GroundProblem) -> (res: Vec<Vec<usize>>)
    requires
        named_plan(*ground, plan@),
        support.wf(),
        support@.len() >= 2,
        support.spec_ncols() >= 2,
        links_in_plan(support@, support.spec_ncols() as int, plan@.len() as int),
    ensures
        groups_of(res@) == over_steps(
            distinct_syms(action_syms(*ground, plan@)).len() as int,
            action_groups(
                action_links(support@, support.spec_ncols() as int, action_syms(*ground, plan@)),
                distinct_syms(action_syms(*ground, plan@)),
            ),
        ),
{
    let ghost m = support@;
    let ghost cols = support.spec_ncols() as int;
    let ghost syms = action_syms(*ground, plan@);
    let row = support.nrows();
    let col = support.ncols();
    let mut v: Vec<usize> = Vec::new();
    let mut k: usize = 0;
    while k < plan.len()
        invariant
            k <= plan@.len(),
            named_plan(*ground, plan@),
            syms == action_syms(*ground, plan@),
            v@ == distinct_syms(syms.take(k as int)),
        decreases plan@.len() - k,
    {
        assert(plan@[k as int].id < ground.operators@.len());
        let action = ground.operators.name(plan[k]);
        let a = action[0];
        proof {
            assert(syms[k as int] == a);
            assert(syms.take(k + 1).drop_last() =~= syms.take(k as int));
            assert(syms.take(k + 1).last() == a);
        }
        let mut notin = true;
        let mut q: usize = 0;
        while q < v.len()
            invariant
                q <= v@.len(),
                notin == forall|j: int| 0 <= j < q ==> v@[j] != a,
            decreases v@.len() - q,
        {
            if v[q] == a {
                notin = false;
            }
            q = q + 1;
        }
        if notin {
            v.push(a);
        } else {
            proof {
                let j = choose|j: int| 0 <= j < q && v@[j] == a;
                assert(v@.contains(a));
            }
        }
        k = k + 1;
    }
    proof {
        assert(syms.take(k as int) =~= syms);
        lemma_distinct_syms(syms);
    }
    let ghost vs = v@;
    let nbop = v.len();
    let mut matrice = IntMatrix::from_diagonal_element(nbop, nbop, 0);
    let ghost z = zeros(nbop as int);
    proof {
        assert forall|r: int| 0 <= r < nbop implies #[trigger] matrice@[r] =~= z[r] by {
            assert forall|c: int| 0 <= c < nbop implies matrice@[r][c] == z[r][c] by {
                assert(matrice.at(r, c) == 0);
            }
        }
        assert(matrice@ =~= z);
    }
    let mut ligne: usize = 0;
    while ligne < row - 2
        invariant
            row == m.len(),
            col == cols,
            cols == support.spec_ncols(),
            row >= 2,
            col >= 2,
            m == support@,
            support.wf(),
            ligne <= row - 2,
            named_plan(*ground, plan@),
            syms == action_syms(*ground, plan@),
            vs == v@,
            vs == distinct_syms(syms),
            nbop == vs.len(),
            forall|i: int, j: int| 0 <= i < j < vs.len() ==> vs[i] != vs[j],
            forall|x: usize| #[trigger] vs.contains(x) <==> syms.contains(x),
            links_in_plan(m, cols, plan@.len() as int),
            z == zeros(nbop as int),
            matrice.wf(),
            matrice@.len() == nbop,
            matrice.spec_ncols() == nbop,
            matrice@ == apply_writes(z, over_steps(ligne as int, action_link_rows(m, syms, vs, cols - 2))),
        decreases row - 2 - ligne,
    {
        let ghost base = over_steps(ligne as int, action_link_rows(m, syms, vs, cols - 2));
        let mut colonnes: usize = 0;
        while colonnes < col - 2
            invariant
                row == m.len(),
                col == cols,
                cols == support.spec_ncols(),
                row >= 2,
                col >= 2,
                m == support@,
                support.wf(),
                ligne < row - 2,
                colonnes <= col - 2,
                named_plan(*ground, plan@),
                syms == action_syms(*ground, plan@),
                vs == v@,
                vs == distinct_syms(syms),
                nbop == vs.len(),
                forall|i: int, j: int| 0 <= i < j < vs.len() ==> vs[i] != vs[j],
                forall|x: usize| #[trigger] vs.contains(x) <==> syms.contains(x),
                links_in_plan(m, cols, plan@.len() as int),
                z == zeros(nbop as int),
                matrice.wf(),
                matrice@.len() == nbop,
                matrice.spec_ncols() == nbop,
                matrice@ == apply_writes(z, base + over_steps(colonnes as int, action_link_write(m, syms, vs, ligne as int))),
            decreases col - 2 - colonnes,
        {
            let ghost done = base + over_steps(colonnes as int, action_link_write(m, syms, vs, ligne as int));
            let ghost w = action_link_write(m, syms, vs, ligne as int)(colonnes as int);
            if support.get(ligne, colonnes) == 1 {
                assert(plan@[ligne as int].id < ground.operators@.len());
                assert(plan@[colonnes as int].id < ground.operators@.len());
                let a1 = ground.operators.name(plan[ligne])[0];
                let a2 = ground.operators.name(plan[colonnes])[0];
                proof {
                    assert(syms[ligne as int] == a1 && syms[colonnes as int] == a2);
                    assert(syms.contains(a1) && syms.contains(a2));
                    assert(vs.contains(a1) && vs.contains(a2));
                    lemma_index_in(vs, a1);
                    lemma_index_in(vs, a2);
                    let w1 = choose|j: int| 0 <= j < vs.len() && vs[j] == a1;
                    let w2 = choose|j: int| 0 <= j < vs.len() && vs[j] == a2;
                }
                let mut placeop1: usize = 0;
                let mut placeop2: usize = 0;
                let mut count: usize = 0;
                while count < v.len()
                    invariant
                        count <= vs.len(),
                        vs == v@,
                        forall|i: int, j: int| 0 <= i < j < vs.len() ==> vs[i] != vs[j],
                        0 <= index_in(vs, a1) < vs.len() && vs[index_in(vs, a1)] == a1,
                        0 <= index_in(vs, a2) < vs.len() && vs[index_in(vs, a2)] == a2,
                        placeop1 == if index_in(vs, a1) < count {
                            index_in(vs, a1)
                        } else {
                            0
                        },
                        placeop2 == if index_in(vs, a2) < count {
                            index_in(vs, a2)
                        } else {
                            0
                        },
                    decreases vs.len() - count,
                {
                    if v[count] == a1 {
                        placeop1 = count;
                    }
                    if v[count] == a2 {
                        placeop2 = count;
                    }
                    count = count + 1;
                }
                let ghost mb = matrice@;
                matrice.set(placeop1, placeop2, 1);
                proof {
                    assert(w =~= seq![(placeop1 as int, placeop2 as int, 1i32)]);
                    reveal_with_fuel(apply_writes, 2);
                    assert(w.drop_last() =~= Seq::<WriteV>::empty());
                    assert(matrice@ == apply_writes(mb, w));
                }
            } else {
                proof {
                    assert(w =~= Seq::<WriteV>::empty());
                    assert(apply_writes(matrice@, w) == matrice@);
                }
            }
            proof {
                lemma_apply_writes_concat(z, done, w);
                assert(done + w =~= base + over_steps(colonnes + 1, action_link_write(m, syms, vs, ligne as int)));
            }
            colonnes = colonnes + 1;
        }
        proof {
            assert(base + over_steps(cols - 2, action_link_write(m, syms, vs, ligne as int)) =~= over_steps(
                ligne + 1,
                action_link_rows(m, syms, vs, cols - 2),
            ));
        }
        ligne = ligne + 1;
    }
    let ghost a = matrice@;
    proof {
        assert(a == action_links(m, cols, syms));
    }
    let mut out: Vec<Vec<usize>> = Vec::new();
    let mut l: usize = 0;
    while l < nbop
        invariant
            nbop == vs.len(),
            vs == v@,
            a == matrice@,
            matrice.wf(),
            matrice@.len() == nbop,
            matrice.spec_ncols() == nbop,
            l <= nbop,
            groups_of(out@) == over_steps(l as int, action_groups(a, vs)),
        decreases nbop - l,
    {
        let ghost base = groups_of(out@);
        let mut c: usize = l;
        proof {
            assert forall|k: int| 0 <= k < l implies #[trigger] action_group_row(a, vs, l as int)(k) =~= Seq::<Seq<usize>>::empty() by {}
            lemma_over_steps_empty(l as int, action_group_row(a, vs, l as int));
        }
        while c < nbop
            invariant
                nbop == vs.len(),
                vs == v@,
                a == matrice@,
                matrice.wf(),
                matrice@.len() == nbop,
                matrice.spec_ncols() == nbop,
                l < nbop,
                l <= c <= nbop,
                groups_of(out@) == base + over_steps(c as int, action_group_row(a, vs, l as int)),
            decreases nbop - c,
        {
            let ghost before = groups_of(out@);
            if matrice.get(l, c) == 1 && matrice.get(c, l) == 1 {
                let mut groupe: Vec<usize> = Vec::new();
                groupe.push(v[c]);
                groupe.push(v[l]);
                out.push(groupe);
                proof {
                    assert(groupe@ =~= seq![vs[c as int], vs[l as int]]);
                    assert(groups_of(out@) =~= before.push(groupe@));
                }
            }
            proof {
                assert(groups_of(out@) =~= base + over_steps(c + 1, action_group_row(a, vs, l as int)));
            }
            c = c + 1;
        }
        l = l + 1;
    }
    out
}

} // verus!
