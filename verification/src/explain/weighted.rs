//! The weighted necessity analyses: the necessity search over a support matrix in which the
//! links through some variables weigh more, or less, than the others.
use vstd::prelude::*;
use crate::classical::state::{Op, SVId, ops_wf};
use crate::classical::GroundProblem;
use crate::explain::state2::{Resume, Necessaire, newnec};
use crate::explain::matrix::IntMatrix;
use crate::explain::explain::{
    plan_in,
    plan_records,
    goal_sources,
    weighted_seq,
    weighted_entry,
    weight_matrix,
    initial_necessity,
    first_min,
    init_ok,
    sources,
    recs_of,
    idx,
    has_idx,
};

verus! {

/// What a necessity record holds: the step, whether it is necessary, the path and the length.
pub type NecV = (Resume, bool, Option<Seq<Resume>>, u32);

/// What the record `e` holds.
pub open spec fn nec_view(e: Necessaire) -> NecV {
    (e.spec_opnec(), e.spec_nec(), e.spec_chemin(), e.spec_long())
}

/// What each record of `s` holds.
pub open spec fn necs_view(s: Seq<Necessaire>) -> Seq<NecV> {
    s.map_values(|e: Necessaire| nec_view(e))
}

/// Position of the first record of least length.
pub open spec fn min_pos(a: Seq<NecV>) -> int
    decreases a.len(),
{
    if a.len() <= 1 {
        0
    } else {
        let p = min_pos(a.drop_last());
        if a.last().3 < a[p].3 {
            a.len() - 1
        } else {
            p
        }
    }
}

/// Whether `p` is the position of the first record of least length in `a`.
pub open spec fn is_first_min(a: Seq<NecV>, p: int) -> bool {
    &&& 0 <= p < a.len()
    &&& forall|j: int| 0 <= j < a.len() ==> a[p].3 <= (#[trigger] a[j]).3
    &&& forall|j: int| 0 <= j < p ==> a[p].3 < (#[trigger] a[j]).3
}

/// `min_pos` is the position of the first record of least length, and the only one.
pub proof fn lemma_min_pos(a: Seq<NecV>)
    requires
        a.len() > 0,
    ensures
        is_first_min(a, min_pos(a)),
        forall|q: int| is_first_min(a, q) ==> q == min_pos(a),
    decreases a.len(),
{
    if a.len() > 1 {
        let b = a.drop_last();
        lemma_min_pos(b);
        let p = min_pos(b);
        assert(a[p] == b[p]);
        let q = min_pos(a);
        assert forall|j: int| 0 <= j < a.len() implies a[q].3 <= (#[trigger] a[j]).3 by {
            if j < b.len() {
                assert(b[j] == a[j]);
                assert(b[p].3 <= b[j].3);
            }
        }
        assert forall|j: int| 0 <= j < q implies a[q].3 < (#[trigger] a[j]).3 by {
            assert(b[j] == a[j]);
            if j < p {
                assert(b[p].3 < b[j].3);
            } else {
                assert(b[p].3 <= b[j].3);
            }
        }
    }
    assert(is_first_min(a, min_pos(a)));
    assert forall|q: int| is_first_min(a, q) implies q == min_pos(a) by {
        let p = min_pos(a);
        if q < p {
            assert(a[p].3 < a[q].3);
        } else if p < q {
            assert(a[q].3 < a[p].3);
        }
    }
}

/// The path that a record gets through the record `s`: the path of `s`, then the step of `s`.
pub open spec fn path_through(s: NecV) -> Seq<Resume> {
    match s.2 {
        Some(p) => p.push(s.0),
        None => seq![s.0],
    }
}

/// The record `e`, once the record `s` is taken: where the entry of `m` at the row of the step
/// of `e` and the column of that of `s` is not 0, and the length of `e` exceeds that of `s` by
/// more than one, `e` gets the path through `s`, the necessity of `s` and the length of `s`
/// plus that entry (read as a `u32`).
pub open spec fn relax_one(m: Seq<Seq<i32>>, s: NecV, e: NecV) -> NecV {
    let w = m[e.0.spec_numero() as int][s.0.spec_numero() as int];
    if w != 0 && e.3 > s.3 + 1 {
        (e.0, s.1, Some(path_through(s)), (s.3 + (w as u32)) as u32)
    } else {
        e
    }
}

/// Whether updating the record `e` through `s` stays within a `u32`: where the entry is not 0,
/// the length of `s` plus one does, and so does, when `e` is updated, the length of `s` plus the
/// entry (read as a `u32`).
pub open spec fn relax_fits(m: Seq<Seq<i32>>, s: NecV, e: NecV) -> bool {
    let w = m[e.0.spec_numero() as int][s.0.spec_numero() as int];
    w != 0 ==> s.3 + 1 <= u32::MAX && (e.3 > s.3 + 1 ==> s.3 + (w as u32) <= u32::MAX)
}

/// The records `a`, once the record `s` is taken.
pub open spec fn relax(m: Seq<Seq<i32>>, s: NecV, a: Seq<NecV>) -> Seq<NecV> {
    a.map_values(|e: NecV| relax_one(m, s, e))
}

/// The weighted necessity search: while records are left in `a`, it takes the first one of least
/// length, appends it to `t`, and updates the others through it, as `relax_one` says.
pub open spec fn weighted_run(m: Seq<Seq<i32>>, a: Seq<NecV>, t: Seq<NecV>) -> Seq<NecV>
    decreases a.len(),
{
    if a.len() == 0 {
        t
    } else {
        proof {
            lemma_min_pos(a);
        }
        let p = min_pos(a);
        weighted_run(m, relax(m, a[p], a.remove(p)), t.push(a[p]))
    }
}

/// Whether every length that the weighted search from the records `a` computes stays within a
/// `u32`.
pub open spec fn run_fits(m: Seq<Seq<i32>>, a: Seq<NecV>) -> bool
    decreases a.len(),
{
    if a.len() == 0 {
        true
    } else {
        proof {
            lemma_min_pos(a);
        }
        let p = min_pos(a);
        let rest = a.remove(p);
        &&& forall|k: int| 0 <= k < rest.len() ==> relax_fits(m, a[p], #[trigger] rest[k])
        &&& run_fits(m, relax(m, a[p], rest))
    }
}

/// The matrix `m` with each non-zero entry replaced by 1: the links of `m`, each of length 1.
pub open spec fn unit(m: Seq<Seq<i32>>) -> Seq<Seq<i32>> {
    m.map_values(|r: Seq<i32>| r.map_values(|x: i32| if x != 0 { 1i32 } else { 0i32 }))
}

/// The records the search starts from: one per step, in order, without path; necessary and of
/// length 0 for the steps of `src`, not necessary and of length `inf` for the others.
pub open spec fn necessity_start(recs: Seq<Resume>, src: Set<int>, inf: u32) -> Seq<NecV> {
    Seq::new(
        recs.len(),
        |k: int|
            if src.contains(k) {
                (recs[k], true, None::<Seq<Resume>>, 0u32)
            } else {
                (recs[k], false, None::<Seq<Resume>>, inf)
            },
    )
}

/// Initial records of a search are what `necessity_start` says of their steps and sources.
pub proof fn lemma_start(init: Seq<Necessaire>, n: int, inf: u32)
    requires
        0 < inf,
        init_ok(init, n, inf - 1),
    ensures
        necs_view(init) == necessity_start(recs_of(init), sources(init, n), inf),
{
    let v = necs_view(init);
    let w = necessity_start(recs_of(init), sources(init, n), inf);
    assert forall|k: int| 0 <= k < n implies #[trigger] v[k] == w[k] by {
        assert(idx(init[k]) == k);
    }
    assert(v =~= w);
}

/// The weighted necessity search over `matrice`, from the initial records `init` (`inf` as the
/// length of the steps not reached): each time the first record of least length is taken, and
/// the others are updated through it, as `weighted_run` says. Every step gets one record, in an
/// order of non-decreasing length.
#[verifier::rlimit(40)]
fn weighted_search(matrice: &IntMatrix, length: usize, init: Vec<Necessaire>, inf: u32) -> (res: Vec<Necessaire>)
    requires
        0 < length < i32::MAX,
        0 < inf,
        matrice.wf(),
        matrice@.len() > length,
        matrice.spec_ncols() >= length,
        init_ok(init@, length as int, inf - 1),
        run_fits(matrice@, necs_view(init@)),
    ensures
        necs_view(res@) == weighted_run(matrice@, necs_view(init@), seq![]),
        res@.len() == length,
        forall|k: int| 0 <= k < length ==> #[trigger] has_idx(res@, k),
        forall|i: int, j: int| 0 <= i < j < length ==> (#[trigger] res@[i]).spec_long() <= (#[trigger] res@[j]).spec_long(),
{
    let ghost n = length as int;
    let ghost m = matrice@;
    let ghost goal = weighted_run(m, necs_view(init@), seq![]);
    let mut atraite = init;
    let mut traite: Vec<Necessaire> = Vec::new();
    proof {
        assert(necs_view(traite@) =~= seq![]);
        assert forall|k: int| 0 <= k < n implies (#[trigger] has_idx(atraite@, k)) || has_idx(traite@, k) by {
            assert(idx(atraite@[k]) == k);
        }
    }
    while atraite.len() > 0
        invariant
            0 < length < i32::MAX,
            n == length as int,
            m == matrice@,
            matrice.wf(),
            matrice@.len() > length,
            matrice.spec_ncols() >= length,
            weighted_run(m, necs_view(atraite@), necs_view(traite@)) == goal,
            run_fits(m, necs_view(atraite@)),
            atraite@.len() + traite@.len() == n,
            forall|j: int| 0 <= j < atraite@.len() ==> 0 <= idx(#[trigger] atraite@[j]) < n,
            forall|k: int| 0 <= k < n ==> (#[trigger] has_idx(atraite@, k)) || has_idx(traite@, k),
            forall|i: int, j: int| 0 <= i < j < traite@.len() ==> (#[trigger] traite@[i]).spec_long() <= (#[trigger] traite@[j]).spec_long(),
            traite@.len() > 0 ==> forall|j: int| 0 <= j < atraite@.len() ==> traite@.last().spec_long() <= (#[trigger] atraite@[j]).spec_long(),
        decreases atraite@.len(),
    {
        let index = first_min(&atraite);
        let ghost a0 = atraite@;
        let ghost t0 = traite@;
        proof {
            let v0 = necs_view(a0);
            lemma_min_pos(v0);
            assert(is_first_min(v0, index as int));
        }
        let somme = atraite.remove(index);
        let ghost a1 = atraite@;
        let ghost sv = nec_view(somme);
        proof {
            assert(a1 == a0.remove(index as int));
            assert(necs_view(a1) =~= necs_view(a0).remove(index as int));
            let v0 = necs_view(a0);
            assert(v0[index as int] == sv);
            assert(forall|k: int| 0 <= k < necs_view(a1).len() ==> relax_fits(m, sv, #[trigger] necs_view(a1)[k]));
        }
        let ind = somme.opnec().numero() as usize;
        let sl = somme.long();
        let mut j: usize = 0;
        while j < atraite.len()
            invariant
                0 < length < i32::MAX,
                n == length as int,
                m == matrice@,
                matrice.wf(),
                matrice@.len() > length,
                matrice.spec_ncols() >= length,
                sv == nec_view(somme),
                ind as int == idx(somme),
                0 <= ind < n,
                sl == somme.spec_long(),
                j <= atraite@.len(),
                atraite@.len() == a1.len(),
                forall|k: int| 0 <= k < a1.len() ==> 0 <= idx(#[trigger] a1[k]) < n,
                forall|k: int| 0 <= k < a1.len() ==> sl <= (#[trigger] a1[k]).spec_long(),
                forall|k: int| 0 <= k < necs_view(a1).len() ==> relax_fits(m, sv, #[trigger] necs_view(a1)[k]),
                forall|k: int| 0 <= k < j ==> nec_view(#[trigger] atraite@[k]) == relax_one(m, sv, nec_view(a1[k])),
                forall|k: int| j <= k < a1.len() ==> #[trigger] atraite@[k] == a1[k],
                forall|k: int| 0 <= k < a1.len() ==> idx(#[trigger] atraite@[k]) == idx(a1[k]),
                forall|k: int| 0 <= k < a1.len() ==> sl <= (#[trigger] atraite@[k]).spec_long(),
            decreases a1.len() - j,
        {
            let y = atraite[j].opnec().numero() as usize;
            let w = matrice.get(y, ind);
            let ghost before = atraite@;
            proof {
                assert(necs_view(a1)[j as int] == nec_view(a1[j as int]));
                assert(relax_fits(m, sv, nec_view(a1[j as int])));
            }
            if w != 0 && atraite[j].long() > sl + 1 {
                let mut newchemin = match somme.chemin() {
                    Some(c) => c,
                    None => Vec::new(),
                };
                newchemin.push(somme.opnec());
                let nec = newnec(atraite[j].opnec(), somme.nec(), newchemin, sl + w as u32);
                proof {
                    assert(newchemin@ == path_through(sv));
                }
                atraite.set(j, nec);
            }
            proof {
                assert(nec_view(atraite@[j as int]) == relax_one(m, sv, nec_view(a1[j as int])));
                assert forall|k: int| 0 <= k < a1.len() implies sl <= (#[trigger] atraite@[k]).spec_long() by {
                    if k != j {
                        assert(atraite@[k] == before[k]);
                    }
                }
            }
            j = j + 1;
        }
        let ghost a2 = atraite@;
        traite.push(somme);
        proof {
            let t2 = traite@;
            assert(t2.drop_last() =~= t0);
            assert(necs_view(a2) =~= relax(m, sv, necs_view(a1)));
            assert(necs_view(t2) =~= necs_view(t0).push(sv));
            let v0 = necs_view(a0);
            assert(v0[index as int] == sv);
            assert(weighted_run(m, v0, necs_view(t0)) == weighted_run(
                m,
                relax(m, v0[min_pos(v0)], v0.remove(min_pos(v0))),
                necs_view(t0).push(v0[min_pos(v0)]),
            ));
            assert(run_fits(m, necs_view(a2)));
            assert forall|k: int| 0 <= k < n implies (#[trigger] has_idx(a2, k)) || has_idx(t2, k) by {
                if has_idx(a0, k) {
                    let q = choose|q: int| 0 <= q < a0.len() && idx(#[trigger] a0[q]) == k;
                    if q < index {
                        assert(idx(a2[q]) == idx(a1[q]));
                    } else if q > index {
                        assert(a1[q - 1] == a0[q]);
                        assert(idx(a2[q - 1]) == idx(a1[q - 1]));
                    } else {
                        assert(idx(t2[t0.len() as int]) == k);
                    }
                } else {
                    let q = choose|q: int| 0 <= q < t0.len() && idx(#[trigger] t0[q]) == k;
                    assert(t2[q] == t0[q]);
                }
            }
            assert forall|q: int| 0 <= q < a2.len() implies 0 <= idx(#[trigger] a2[q]) < n by {
                if q < index {
                    assert(a1[q] == a0[q]);
                } else {
                    assert(a1[q] == a0[q + 1]);
                }
            }
            assert forall|i: int, j2: int| 0 <= i < j2 < t2.len() implies (#[trigger] t2[i]).spec_long() <= (
            #[trigger] t2[j2]).spec_long() by {
                if j2 < t0.len() {
                    assert(t2[i] == t0[i] && t2[j2] == t0[j2]);
                } else {
                    assert(t2[i] == t0[i]);
                    if i < t0.len() - 1 {
                        assert(t0[i].spec_long() <= t0.last().spec_long());
                    }
                    assert(t0.last().spec_long() <= a0[index as int].spec_long());
                }
            }
        }
    }
    proof {
        assert(necs_view(atraite@) =~= seq![]);
        assert forall|k: int| 0 <= k < n implies #[trigger] has_idx(traite@, k) by {
            if has_idx(atraite@, k) {
                let q = choose|q: int| 0 <= q < atraite@.len() && idx(#[trigger] atraite@[q]) == k;
            }
        }
    }
    traite
}

/// Whether the weighted analyses can run on `mat` for the plan with the weight `infini`: the
/// square of the number of steps, plus one, fits in a `u32`, and so does every length that the
/// search computes.
pub open spec fn weighted_fits(
    mat: Seq<Seq<i32>>,
    ncols: int,
    ground: GroundProblem,
    plan: Seq<Op>,
    predicat: Seq<SVId>,
    infini: i32,
    avantage: bool,
) -> bool {
    let n = plan.len() as int;
    &&& n * n + 1 <= u32::MAX
    &&& run_fits(
        weighted_seq(mat, ncols, ground.operators@, plan, predicat, infini, avantage),
        necessity_start(
            plan_records(plan),
            goal_sources(ground.operators@, ground.initial_state@, plan, ground.goals@),
            (n * n + 1) as u32,
        ),
    )
}

/// What the weighted analyses give: the weighted search over the support matrix `mat` weighted
/// by the variables `predicat` (`avantage` as `weighted_entry` says), from the steps of the plan
/// that support a goal, with `n * n + 1` as the length of the steps not reached.
pub open spec fn weighted_result(
    mat: Seq<Seq<i32>>,
    ncols: int,
    ground: GroundProblem,
    plan: Seq<Op>,
    predicat: Seq<SVId>,
    infini: i32,
    avantage: bool,
) -> Seq<NecV> {
    let n = plan.len() as int;
    weighted_run(
        weighted_seq(mat, ncols, ground.operators@, plan, predicat, infini, avantage),
        necessity_start(
            plan_records(plan),
            goal_sources(ground.operators@, ground.initial_state@, plan, ground.goals@),
            (n * n + 1) as u32,
        ),
        seq![],
    )
}

/// The weighted necessity analysis shared by `dijkstrapoids` and `dijkstrapoidsavantage`.
fn weighted_necessity(
    plan: &Vec<Op>,
    ground: &GroundProblem,
    mat: &IntMatrix,
    predicat: &Vec<SVId>,
    infini: i32,
    avantage: bool,
) -> (res: Vec<Necessaire>)
    requires
        0 < plan@.len(),
        weighted_fits(mat@, mat.spec_ncols() as int, *ground, plan@, predicat@, infini, avantage),
        ops_wf(ground.operators@, ground.initial_state@.len()),
        plan_in(ground.operators@, plan@),
        mat.wf(),
        mat@.len() > plan@.len(),
        mat.spec_ncols() >= plan@.len(),
    ensures
        necs_view(res@) == weighted_result(mat@, mat.spec_ncols() as int, *ground, plan@, predicat@, infini, avantage),
        res@.len() == plan@.len(),
        forall|k: int| 0 <= k < plan@.len() ==> #[trigger] has_idx(res@, k),
        forall|i: int, j: int| 0 <= i < j < plan@.len() ==> (#[trigger] res@[i]).spec_long() <= (#[trigger] res@[j]).spec_long(),
{
    let ghost n = plan@.len() as int;
    let length = plan.len();
    assert(length < 65536) by (nonlinear_arith)
        requires
            length == n,
            n * n + 1 <= u32::MAX,
            n > 0,
    ;
    let l2 = length as u32;
    let matrice = weight_matrix(mat, plan, &ground.operators, predicat, infini, avantage);
    let inf = l2 * l2 + 1;
    let atraite = initial_necessity(plan, ground, inf);
    proof {
        lemma_start(atraite@, n, inf);
    }
    weighted_search(&matrice, length, atraite, inf)
}

/// Which steps are necessary, by the weighted necessity search from the steps that support a
/// goal, over the support matrix `mat` in which the links through one of the variables
/// `predicat` weigh `infini` (`weighted_result`); every step gets one record, in an order of
/// non-decreasing length.
pub fn dijkstrapoids(plan: &Vec<Op>, ground: &GroundProblem, mat: &IntMatrix, predicat: &Vec<SVId>, infini: i32) -> (res: Vec<
    Necessaire,
>)
    requires
        0 < plan@.len(),
        weighted_fits(mat@, mat.spec_ncols() as int, *ground, plan@, predicat@, infini, false),
        ops_wf(ground.operators@, ground.initial_state@.len()),
        plan_in(ground.operators@, plan@),
        mat.wf(),
        mat@.len() > plan@.len(),
        mat.spec_ncols() >= plan@.len(),
    ensures
        necs_view(res@) == weighted_result(mat@, mat.spec_ncols() as int, *ground, plan@, predicat@, infini, false),
        res@.len() == plan@.len(),
        forall|k: int| 0 <= k < plan@.len() ==> #[trigger] has_idx(res@, k),
        forall|i: int, j: int| 0 <= i < j < plan@.len() ==> (#[trigger] res@[i]).spec_long() <= (#[trigger] res@[j]).spec_long(),
{
    weighted_necessity(plan, ground, mat, predicat, infini, false)
}

/// Which steps are necessary, by the weighted necessity search from the steps that support a
/// goal, over the support matrix `mat` in which the links that do not go through one of the
/// variables `predicat` weigh `infini` (`weighted_result`); every step gets one record, in an
/// order of non-decreasing length.
pub fn dijkstrapoidsavantage(
    plan: &Vec<Op>,
    ground: &GroundProblem,
    mat: &IntMatrix,
    predicat: &Vec<SVId>,
    infini: i32,
) -> (res: Vec<Necessaire>)
    requires
        0 < plan@.len(),
        weighted_fits(mat@, mat.spec_ncols() as int, *ground, plan@, predicat@, infini, true),
        ops_wf(ground.operators@, ground.initial_state@.len()),
        plan_in(ground.operators@, plan@),
        mat.wf(),
        mat@.len() > plan@.len(),
        mat.spec_ncols() >= plan@.len(),
    ensures
        necs_view(res@) == weighted_result(mat@, mat.spec_ncols() as int, *ground, plan@, predicat@, infini, true),
        res@.len() == plan@.len(),
        forall|k: int| 0 <= k < plan@.len() ==> #[trigger] has_idx(res@, k),
        forall|i: int, j: int| 0 <= i < j < plan@.len() ==> (#[trigger] res@[i]).spec_long() <= (#[trigger] res@[j]).spec_long(),
{
    weighted_necessity(plan, ground, mat, predicat, infini, true)
}

} // verus!
