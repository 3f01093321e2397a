//! Which operators occur once in a plan, and which steps are necessary to reach its goals.
use vstd::prelude::*;
use crate::classical::state::{Op, Lit, OperatorV, ops_wf};
use crate::classical::GroundProblem;
use crate::explain::state2::{Resume, Necessaire, Unique, newunique, newresume, newnec, newnecgoal, newnecess};
use crate::explain::explain::{plan_in, supports_of, goal_supports, supports_at, goal_supports_of};
use crate::explain::weighted::{NecV, nec_view, necs_view, path_through};

verus! {

/// How many times `o` occurs in `s`.
pub open spec fn occ(s: Seq<Op>, o: Op) -> nat
    decreases s.len(),
{
    if s.len() == 0 {
        0
    } else {
        occ(s.drop_last(), o) + if s.last() == o {
            1nat
        } else {
            0nat
        }
    }
}

/// The operators of `s`, each once, in the order of their first occurrence.
pub open spec fn distinct_ops(s: Seq<Op>) -> Seq<Op>
    decreases s.len(),
{
    if s.len() == 0 {
        seq![]
    } else {
        let d = distinct_ops(s.drop_last());
        if d.contains(s.last()) {
            d
        } else {
            d.push(s.last())
        }
    }
}

/// An operator is listed by `distinct_ops` exactly when it occurs, and it is listed once.
pub proof fn lemma_distinct_ops(s: Seq<Op>)
    ensures
        forall|o: Op| #[trigger] distinct_ops(s).contains(o) <==> occ(s, o) >= 1,
        forall|i: int, j: int| 0 <= i < j < distinct_ops(s).len() ==> distinct_ops(s)[i] != distinct_ops(s)[j],
    decreases s.len(),
{
    if s.len() > 0 {
        lemma_distinct_ops(s.drop_last());
        let d = distinct_ops(s.drop_last());
        assert forall|o: Op| #[trigger] distinct_ops(s).contains(o) <==> occ(s, o) >= 1 by {
            if !d.contains(s.last()) {
                if distinct_ops(s).contains(o) {
                    let k = choose|k: int| 0 <= k < distinct_ops(s).len() && distinct_ops(s)[k] == o;
                    if k < d.len() {
                        assert(d[k] == o);
                    }
                }
                if d.contains(o) {
                    let k = choose|k: int| 0 <= k < d.len() && d[k] == o;
                    assert(distinct_ops(s)[k] == o);
                }
                if o == s.last() {
                    assert(distinct_ops(s)[d.len() as int] == o);
                }
            }
        }
    }
}

/// What a record of `uniquement` holds: the operator and whether it occurs only once.
pub open spec fn unique_view(u: Unique) -> (Op, bool) {
    (u.spec_operateur(), u.spec_unicite())
}

/// The operators of `plan`, each once in the order of their first occurrence, with whether it
/// occurs only once.
pub open spec fn uniques(plan: Seq<Op>) -> Seq<(Op, bool)> {
    distinct_ops(plan).map_values(|o: Op| (o, occ(plan, o) == 1))
}

/// The operators of the plan, each once in the order of their first occurrence, with whether it
/// occurs only once in the plan.
pub fn uniquement(plan: Vec<Op>) -> (res: Vec<Unique>)
    ensures
        res@.map_values(|u: Unique| unique_view(u)) == uniques(plan@),
{
    let ghost p = plan@;
    let mut un: Vec<Unique> = Vec::new();
    let mut k: usize = 0;
    while k < plan.len()
        invariant
            k <= p.len(),
            p == plan@,
            un@.map_values(|u: Unique| unique_view(u)) == uniques(p.take(k as int)),
        decreases p.len() - k,
    {
        let op = plan[k];
        let ghost pk = p.take(k as int);
        let ghost pk1 = p.take(k + 1);
        let ghost u0 = un@;
        let ghost d = distinct_ops(pk);
        proof {
            assert(pk1.drop_last() =~= pk);
            assert(pk1.last() == op);
            lemma_distinct_ops(pk);
            let uv = u0.map_values(|u: Unique| unique_view(u));
            assert(u0.len() == uv.len() && uv.len() == d.len());
            assert forall|i: int| 0 <= i < u0.len() implies #[trigger] u0[i].spec_operateur() == d[i] && u0[i].spec_unicite() == (occ(
                pk,
                d[i],
            ) == 1) by {
                assert(uv[i] == unique_view(u0[i]));
                assert(uv[i] == uniques(pk)[i]);
            }
        }
        let mut count: usize = 0;
        let mut idx: usize = 0;
        while idx < un.len()
            invariant
                idx <= un@.len(),
                un@.len() == u0.len(),
                d == distinct_ops(pk),
                u0.len() == d.len(),
                forall|i: int| 0 <= i < u0.len() ==> #[trigger] u0[i].spec_operateur() == d[i] && u0[i].spec_unicite() == (occ(pk, d[i])
                    == 1),
                forall|i: int, j: int| 0 <= i < j < d.len() ==> d[i] != d[j],
                forall|i: int| 0 <= i < idx ==> #[trigger] un@[i].spec_operateur() == u0[i].spec_operateur() && un@[i].spec_unicite()
                    == (u0[i].spec_unicite() && u0[i].spec_operateur() != op),
                forall|i: int| idx <= i < un@.len() ==> #[trigger] un@[i] == u0[i],
                count == 0 <==> forall|i: int| 0 <= i < idx ==> #[trigger] u0[i].spec_operateur() != op,
                count <= 1,
            decreases un@.len() - idx,
        {
            let mut g = un[idx];
            if g.operateur() == op {
                proof {
                    if count != 0 {
                        let i = choose|i: int| 0 <= i < idx && #[trigger] u0[i].spec_operateur() == op;
                        assert(d[i] == d[idx as int]);
                        assert(false);
                    }
                }
                g.duplicite();
                un.set(idx, g);
                count = count + 1;
            }
            idx = idx + 1;
        }
        if count == 0 {
            un.push(newunique(op));
            proof {
                assert(!distinct_ops(pk).contains(op)) by {
                    if distinct_ops(pk).contains(op) {
                        let i = choose|i: int| 0 <= i < distinct_ops(pk).len() && distinct_ops(pk)[i] == op;
                        assert(u0[i].spec_operateur() == op);
                    }
                }
                assert(occ(pk, op) == 0);
                assert(un@.map_values(|u: Unique| unique_view(u)) =~= uniques(pk1));
            }
        } else {
            proof {
                let i = choose|i: int| 0 <= i < idx && #[trigger] u0[i].spec_operateur() == op;
                assert(distinct_ops(pk).contains(op)) by {
                    assert(distinct_ops(pk)[i] == op);
                }
                assert(distinct_ops(pk1) == distinct_ops(pk));
                assert forall|j: int| 0 <= j < un@.len() implies #[trigger] unique_view(un@[j]) == uniques(pk1)[j] by {
                    let o = distinct_ops(pk)[j];
                    assert(u0[j].spec_operateur() == o);
                    if o == op {
                        assert(occ(pk, o) >= 1);
                    }
                }
                assert(un@.map_values(|u: Unique| unique_view(u)) =~= uniques(pk1));
            }
        }
        k = k + 1;
    }
    proof {
        assert(p.take(k as int) =~= p);
    }
    un
}

/// Whether one of the records `out` is about the step `r`.
pub open spec fn has_rec(out: Seq<NecV>, r: Resume) -> bool {
    exists|k: int| 0 <= k < out.len() && (#[trigger] out[k]).0 == r
}

/// The records `out` once the record `e` is met: if one of them is about the same step, each
/// such record is replaced by `e` where `e` is strictly shorter; otherwise `e` is appended.
pub open spec fn keep_shorter(out: Seq<NecV>, e: NecV) -> Seq<NecV> {
    if has_rec(out, e.0) {
        out.map_values(|t: NecV| if t.0 == e.0 && e.3 < t.3 {
            e
        } else {
            t
        })
    } else {
        out.push(e)
    }
}

/// The records of `s`, one per step, in the order of first occurrence: for each step, the first
/// of its shortest records.
pub open spec fn shortest_records(s: Seq<NecV>) -> Seq<NecV>
    decreases s.len(),
{
    if s.len() == 0 {
        seq![]
    } else {
        keep_shorter(shortest_records(s.drop_last()), s.last())
    }
}

/// The records of `neplan`, one per step, in the order of first occurrence: for each step, the
/// first of its shortest records (`shortest_records`).
pub fn uniexpli(neplan: Vec<Necessaire>) -> (res: Vec<Necessaire>)
    ensures
        necs_view(res@) == shortest_records(necs_view(neplan@)),
{
    let ghost v = necs_view(neplan@);
    let mut out: Vec<Necessaire> = Vec::new();
    let mut k: usize = 0;
    while k < neplan.len()
        invariant
            k <= neplan@.len(),
            v == necs_view(neplan@),
            necs_view(out@) == shortest_records(v.take(k as int)),
        decreases neplan@.len() - k,
    {
        let i = &neplan[k];
        let ghost e = nec_view(*i);
        let ghost o0 = necs_view(out@);
        proof {
            assert(v[k as int] == e);
            assert(v.take(k + 1).drop_last() =~= v.take(k as int));
            assert(v.take(k + 1).last() == e);
        }
        let mut present = false;
        let mut c: usize = 0;
        while c < out.len()
            invariant
                c <= out@.len(),
                out@.len() == o0.len(),
                e == nec_view(*i),
                forall|q: int| 0 <= q < c ==> nec_view(#[trigger] out@[q]) == (if o0[q].0 == e.0 && e.3 < o0[q].3 {
                    e
                } else {
                    o0[q]
                }),
                forall|q: int| c <= q < out@.len() ==> nec_view(#[trigger] out@[q]) == o0[q],
                present == exists|q: int| 0 <= q < c && (#[trigger] o0[q]).0 == e.0,
            decreases out@.len() - c,
        {
            let ghost before = out@;
            if i.opnec() == out[c].opnec() {
                if i.long() < out[c].long() {
                    out.set(c, i.copy());
                }
                present = true;
            }
            proof {
                assert(nec_view(before[c as int]) == o0[c as int]);
                assert forall|q: int| 0 <= q < c + 1 implies nec_view(#[trigger] out@[q]) == (if o0[q].0 == e.0 && e.3 < o0[q].3 {
                    e
                } else {
                    o0[q]
                }) by {
                    if q < c {
                        assert(out@[q] == before[q]);
                    }
                }
                if present {
                    if o0[c as int].0 == e.0 {
                        assert(0 <= c < c + 1 && o0[c as int].0 == e.0);
                    }
                }
            }
            c = c + 1;
        }
        if !present {
            out.push(i.copy());
            proof {
                assert(!has_rec(o0, e.0));
                assert(necs_view(out@) =~= o0.push(e));
            }
        } else {
            proof {
                assert(has_rec(o0, e.0));
                assert(necs_view(out@) =~= keep_shorter(o0, e));
            }
        }
        k = k + 1;
    }
    proof {
        assert(v.take(k as int) =~= v);
    }
    out
}

/// The concatenation of `f(x)` over the elements `x` of `s`, in order.
pub open spec fn flat<A, B>(s: Seq<A>, f: spec_fn(A) -> Seq<B>) -> Seq<B>
    decreases s.len(),
{
    if s.len() == 0 {
        seq![]
    } else {
        flat(s.drop_last(), f) + f(s.last())
    }
}

/// The record of the step `res` through the record `nec`: the necessity of `nec`, the path
/// through `nec`, and the length of `nec` plus one.
pub open spec fn link_through(res: Resume, nec: NecV) -> NecV {
    (res, nec.1, Some(path_through(nec)), (nec.3 + 1) as u32)
}

/// Whether a record through `nec` is kept beside the record `nec2` of the same step: if `nec2` is
/// necessary, when `nec` is necessary and more than one shorter; if not, when `nec` is
/// necessary or more than one shorter.
pub open spec fn improves(nec2: NecV, nec: NecV) -> bool {
    if nec2.1 {
        nec.1 && nec2.3 > nec.3 + 1
    } else {
        nec.1 || nec2.3 > nec.3 + 1
    }
}

/// For a record `nec2` of `out`: the record of `res` through `nec` where `nec2` is about `res`
/// and it is kept beside it.
pub open spec fn beside(res: Resume, nec: NecV) -> spec_fn(NecV) -> Seq<NecV> {
    |nec2: NecV| if nec2.0 == res && improves(nec2, nec) {
        seq![link_through(res, nec)]
    } else {
        seq![]
    }
}

/// The records that a support `res` of the step of `nec` adds: one through `nec` for each record
/// of `out` about `res` beside which it is kept, and one more if no record of `out` is about
/// `res`.
pub open spec fn support_additions(out: Seq<NecV>, nec: NecV, res: Resume) -> Seq<NecV> {
    flat(out, beside(res, nec)) + if has_rec(out, res) {
        seq![]
    } else {
        seq![link_through(res, nec)]
    }
}

/// For a record `nec` of `out` about the step `r` (supports `cause`): what each support adds.
pub open spec fn through_record(out: Seq<NecV>, cause: Seq<Resume>, r: Resume) -> spec_fn(NecV) -> Seq<NecV> {
    |nec: NecV| if nec.0 == r {
        flat(cause, |res: Resume| support_additions(out, nec, res))
    } else {
        seq![]
    }
}

/// The records that the step `r` (supports `cause`) adds to `out`: through each record of `out`
/// about `r`, what each support adds; if no record of `out` is about `r`, a record of `r` that
/// is not necessary, without path, of length 0.
pub open spec fn step_additions(out: Seq<NecV>, cause: Seq<Resume>, r: Resume) -> Seq<NecV> {
    flat(out, through_record(out, cause, r)) + if has_rec(out, r) {
        seq![]
    } else {
        seq![(r, false, None::<Seq<Resume>>, 0u32)]
    }
}

/// The records of `explicabilite` after the last `a` steps of the plan, from the last one
/// backwards: first a necessary record of length 0 for each support of the goals, then, for each
/// step, what `step_additions` gives.
pub open spec fn explanation(ops: Seq<OperatorV>, s: Seq<bool>, plan: Seq<Op>, goals: Seq<Lit>, a: nat) -> Seq<NecV>
    decreases a,
{
    if a == 0 {
        goal_supports(ops, s, plan, goals).map_values(|r: Resume| (r, true, None::<Seq<Resume>>, 0u32))
    } else {
        let out = explanation(ops, s, plan, goals, (a - 1) as nat);
        let i = plan.len() - a;
        out + step_additions(out, supports_of(ops, s, plan, i), Resume::spec_new(Some(plan[i]), i as i32))
    }
}

/// The record of `res` through `nec`.
fn link_exec(res: Resume, nec: &Necessaire) -> (r: Necessaire)
    requires
        nec.spec_long() < u32::MAX,
    ensures
        nec_view(r) == link_through(res, nec_view(*nec)),
{
    let mut c = match nec.chemin() {
        Some(c) => c,
        None => Vec::new(),
    };
    c.push(nec.opnec());
    newnec(res, nec.nec(), c, nec.long() + 1)
}

/// Whether a record through `nec` is kept beside `nec2`.
fn improves_exec(nec2: &Necessaire, nec: &Necessaire) -> (b: bool)
    requires
        nec.spec_long() < u32::MAX,
    ensures
        b == improves(nec_view(*nec2), nec_view(*nec)),
{
    if nec2.nec() {
        nec.nec() && nec2.long() > nec.long() + 1
    } else {
        nec.nec() || nec2.long() > nec.long() + 1
    }
}

/// Whether the lengths of the records `out` are at most `b`.
pub open spec fn longs_le(out: Seq<NecV>, b: int) -> bool {
    forall|k: int| 0 <= k < out.len() ==> (#[trigger] out[k]).3 <= b
}

/// Appends to `extra` what the support `res` of the step of `out[q]` adds.
fn add_support(out: &Vec<Necessaire>, q: usize, res: Resume, extra: &mut Vec<Necessaire>, bound: Ghost<int>)
    requires
        q < out@.len(),
        longs_le(necs_view(out@), bound@),
        bound@ < u32::MAX,
        longs_le(necs_view(old(extra)@), bound@ + 1),
    ensures
        necs_view(final(extra)@) == necs_view(old(extra)@) + support_additions(necs_view(out@), nec_view(out@[q as int]), res),
        longs_le(necs_view(final(extra)@), bound@ + 1),
{
    let ghost ov = necs_view(out@);
    let ghost nv = nec_view(out@[q as int]);
    let ghost f = beside(res, nv);
    let ghost base = necs_view(extra@);
    proof {
        assert(ov[q as int] == nv);
    }
    let mut presence = false;
    let mut q2: usize = 0;
    while q2 < out.len()
        invariant
            q2 <= out@.len(),
            q < out@.len(),
            ov == necs_view(out@),
            nv == nec_view(out@[q as int]),
            nv.3 <= bound@ < u32::MAX,
            f == beside(res, nv),
            necs_view(extra@) == base + flat(ov.take(q2 as int), f),
            longs_le(necs_view(extra@), bound@ + 1),
            presence == exists|k: int| 0 <= k < q2 && (#[trigger] ov[k]).0 == res,
        decreases out@.len() - q2,
    {
        let ghost before = necs_view(extra@);
        proof {
            assert(ov[q2 as int] == nec_view(out@[q2 as int]));
            assert(ov.take(q2 + 1).drop_last() =~= ov.take(q2 as int));
            assert(ov.take(q2 + 1).last() == ov[q2 as int]);
        }
        if out[q2].presence(res) {
            presence = true;
            if improves_exec(&out[q2], &out[q]) {
                let l = link_exec(res, &out[q]);
                extra.push(l);
                proof {
                    assert(f(ov[q2 as int]) =~= seq![nec_view(l)]);
                    assert(necs_view(extra@) =~= before.push(nec_view(l)));
                }
            } else {
                proof {
                    assert(f(ov[q2 as int]) =~= Seq::<NecV>::empty());
                }
            }
        } else {
            proof {
                assert(f(ov[q2 as int]) =~= Seq::<NecV>::empty());
            }
        }
        proof {
            assert(necs_view(extra@) =~= base + flat(ov.take(q2 + 1), f));
            if presence && ov[q2 as int].0 == res {
                assert(0 <= q2 < q2 + 1 && ov[q2 as int].0 == res);
            }
        }
        q2 = q2 + 1;
    }
    proof {
        assert(ov.take(q2 as int) =~= ov);
    }
    let ghost mid = necs_view(extra@);
    if !presence {
        let l = link_exec(res, &out[q]);
        extra.push(l);
        proof {
            assert(!has_rec(ov, res));
            assert(necs_view(extra@) =~= mid.push(nec_view(l)));
        }
    } else {
        proof {
            assert(has_rec(ov, res));
        }
    }
    proof {
        assert(necs_view(extra@) =~= base + support_additions(ov, nv, res));
    }
}

/// Which steps are needed to reach the goals, walking the plan from its last step back to its
/// first one (`explanation`): the supports of the goals are necessary; each step that has a
/// record passes, through each of its records, a record to each of its supports, with the path
/// through it and a length one more, where the support has no record yet or the new record
/// is kept beside an existing one (`improves`); a step without a record gets one that is not
/// necessary. The records are listed as they were added.
#[verifier::rlimit(30)]
pub fn explicabilite(plan: Vec<Op>, ground: &GroundProblem) -> (res: Vec<Necessaire>)
    requires
        plan@.len() < i32::MAX,
        ops_wf(ground.operators@, ground.initial_state@.len()),
        plan_in(ground.operators@, plan@),
    ensures
        necs_view(res@) == explanation(
            ground.operators@,
            ground.initial_state@,
            plan@,
            ground.goals@,
            plan@.len(),
        ),
{
    let ghost (o, s, p, g) = (ground.operators@, ground.initial_state@, plan@, ground.goals@);
    let ops = &ground.operators;
    let cause = goal_supports_of(&plan, &ground.initial_state, ops, &ground.goals);
    let mut out: Vec<Necessaire> = Vec::new();
    let mut k: usize = 0;
    while k < cause.len()
        invariant
            k <= cause@.len(),
            necs_view(out@) == cause@.take(k as int).map_values(|r: Resume| (r, true, None::<Seq<Resume>>, 0u32)),
        decreases cause@.len() - k,
    {
        let ghost before = out@;
        let nn = newnecgoal(cause[k]);
        out.push(nn);
        proof {
            assert(necs_view(out@) =~= necs_view(before).push(nec_view(nn)));
            assert(necs_view(out@) =~= cause@.take(k + 1).map_values(|r: Resume| (r, true, None::<Seq<Resume>>, 0u32)));
        }
        k = k + 1;
    }
    proof {
        assert(cause@.take(k as int) =~= cause@);
        assert(longs_le(necs_view(out@), 0));
    }
    let n = plan.len();
    let mut a: usize = 1;
    while a <= n
        invariant
            n == p.len() < i32::MAX,
            p == plan@,
            o == ops@,
            s == ground.initial_state@,
            ops_wf(o, s.len()),
            plan_in(o, p),
            1 <= a <= n + 1,
            necs_view(out@) == explanation(o, s, p, g, (a - 1) as nat),
            longs_le(necs_view(out@), a - 1),
        decreases n + 1 - a,
    {
        let i = n - a;
        let resumei = newresume(plan[i], i as i32);
        let ghost ov = necs_view(out@);
        let ghost cv = supports_of(o, s, p, i as int);
        let ghost fr = through_record(ov, cv, resumei);
        let mut extra: Vec<Necessaire> = Vec::new();
        let mut presenceaction = false;
        let mut q: usize = 0;
        while q < out.len()
            invariant
                q <= out@.len(),
                n == p.len() < i32::MAX,
                p == plan@,
                o == ops@,
                s == ground.initial_state@,
                ops_wf(o, s.len()),
                plan_in(o, p),
                i < n,
                1 <= a <= n,
                ov == necs_view(out@),
                cv == supports_of(o, s, p, i as int),
                fr == through_record(ov, cv, resumei),
                longs_le(ov, a - 1),
                necs_view(extra@) == flat(ov.take(q as int), fr),
                longs_le(necs_view(extra@), a as int),
                presenceaction == exists|k: int| 0 <= k < q && (#[trigger] ov[k]).0 == resumei,
            decreases out@.len() - q,
        {
            let ghost before = necs_view(extra@);
            proof {
                assert(ov[q as int] == nec_view(out@[q as int]));
                assert(ov.take(q + 1).drop_last() =~= ov.take(q as int));
                assert(ov.take(q + 1).last() == ov[q as int]);
            }
            if out[q].presence(resumei) {
                presenceaction = true;
                let cause = supports_at(i, &plan, &ground.initial_state, ops);
                let ghost fs = |res: Resume| support_additions(ov, ov[q as int], res);
                let mut t: usize = 0;
                while t < cause.len()
                    invariant
                        t <= cause@.len(),
                        q < out@.len(),
                        ov == necs_view(out@),
                        cause@ == cv,
                        fs == (|res: Resume| support_additions(ov, ov[q as int], res)),
                        longs_le(ov, a - 1),
                        a < u32::MAX,
                        necs_view(extra@) == before + flat(cv.take(t as int), fs),
                        longs_le(necs_view(extra@), a as int),
                    decreases cause@.len() - t,
                {
                    let ghost mid = necs_view(extra@);
                    proof {
                        assert(cv.take(t + 1).drop_last() =~= cv.take(t as int));
                        assert(cv.take(t + 1).last() == cv[t as int]);
                        assert(ov[q as int] == nec_view(out@[q as int]));
                    }
                    add_support(&out, q, cause[t], &mut extra, Ghost((a - 1) as int));
                    proof {
                        assert(necs_view(extra@) =~= before + flat(cv.take(t + 1), fs));
                    }
                    t = t + 1;
                }
                proof {
                    assert(cv.take(t as int) =~= cv);
                    assert(fr(ov[q as int]) == flat(cv, fs));
                    assert(0 <= q < q + 1 && ov[q as int].0 == resumei);
                }
            } else {
                proof {
                    assert(fr(ov[q as int]) =~= Seq::<NecV>::empty());
                    assert(necs_view(extra@) =~= before + fr(ov[q as int]));
                }
            }
            proof {
                assert(necs_view(extra@) =~= flat(ov.take(q + 1), fr));
            }
            q = q + 1;
        }
        proof {
            assert(ov.take(q as int) =~= ov);
        }
        if !presenceaction {
            extra.push(newnecess(resumei));
            proof {
                assert(!has_rec(ov, resumei));
            }
        } else {
            proof {
                assert(has_rec(ov, resumei));
            }
        }
        let ghost ev = necs_view(extra@);
        proof {
            assert(ev =~= step_additions(ov, cv, resumei));
            assert(resumei == Resume::spec_new(Some(p[i as int]), i as i32));
        }
        let mut e: usize = 0;
        while e < extra.len()
            invariant
                e <= extra@.len(),
                ev == necs_view(extra@),
                necs_view(out@) == ov + ev.take(e as int),
                longs_le(ov, a - 1),
                longs_le(ev, a as int),
                a >= 1,
            decreases extra@.len() - e,
        {
            let ghost before = out@;
            let cp = extra[e].copy();
            out.push(cp);
            proof {
                assert(necs_view(out@) =~= necs_view(before).push(nec_view(cp)));
                assert(ev[e as int] == nec_view(extra@[e as int]));
                assert(necs_view(out@) =~= ov + ev.take(e + 1));
            }
            e = e + 1;
        }
        proof {
            assert(ev.take(e as int) =~= ev);
            assert(necs_view(out@) == explanation(o, s, p, g, a as nat));
            assert forall|k: int| 0 <= k < necs_view(out@).len() implies (#[trigger] necs_view(out@)[k]).3 <= a by {
                if k < ov.len() {
                    assert(necs_view(out@)[k] == ov[k]);
                } else {
                    assert(necs_view(out@)[k] == ev[k - ov.len()]);
                }
            }
        }
        a = a + 1;
    }
    out
}

} // verus!
