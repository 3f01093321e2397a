//! Questions about a plan, answered from its support and threat matrices.
use vstd::prelude::*;
use crate::classical::state::{Op, SVId};
use crate::classical::GroundProblem;
use crate::classical::state::ops_wf;
use crate::explain::state2::{Resume, Necessaire, newresume, Parallelisable, Parallelisabledetail};
use crate::explain::matrix::IntMatrix;
use crate::explain::explain::{
    plan_in, plan_records, goal_sources, single_source, dist, chain_ok, idx, has_idx, necessity_run, first_record,
    dijkstra2, explicationsupport, indirect_result, weighted_seq, supportindirectpoid, supportindirectavantagepoid,
    explicationmenacequestiondetail, threat_detail,
};
use crate::explain::weighted::{NecV, necs_view, weighted_fits, weighted_result, dijkstrapoids};
use crate::explain::choice::{action_vars, choixpredaction2, choixpredaction3};
use crate::explain::coordination::{coordination, coordination_v, synchronisation, sync_rows};
use crate::explain::threats::over_steps;
use crate::parsing::pddl::str_is;

verus! {

/// The records, in order of step, of the steps `i` below `upto` (and in the plan) for which
/// `p(i)` holds.
pub open spec fn records_where(plan: Seq<Op>, upto: int, p: spec_fn(int) -> bool) -> Seq<Resume>
    decreases upto,
{
    if upto <= 0 {
        seq![]
    } else {
        records_where(plan, upto - 1, p) + if p(upto - 1) && upto - 1 < plan.len() {
            seq![Resume::spec_new(Some(plan[upto - 1]), (upto - 1) as i32)]
        } else {
            seq![]
        }
    }
}

/// The records of the steps that support step `num`: those whose row has a 1 in column `num`.
pub fn supportedby(num: usize, support: &IntMatrix, plan: &Vec<Op>) -> (res: Vec<Resume>)
    requires
        support.wf(),
        num < support.spec_ncols(),
        plan@.len() < i32::MAX,
    ensures
        res@ == records_where(plan@, support@.len() as int, |i: int| support@[i][num as int] == 1),
{
    let ghost p = |i: int| support@[i][num as int] == 1;
    let t = support.nrows();
    let mut out: Vec<Resume> = Vec::new();
    let mut i: usize = 0;
    while i < t
        invariant
            i <= t == support@.len(),
            support.wf(),
            num < support.spec_ncols(),
            plan@.len() < i32::MAX,
            p == (|i: int| support@[i][num as int] == 1),
            out@ == records_where(plan@, i as int, p),
        decreases t - i,
    {
        if support.get(i, num) == 1 && i < plan.len() {
            out.push(newresume(plan[i], i as i32));
        }
        i = i + 1;
    }
    out
}

/// The records of the steps that step `num` supports: those whose column has a 1 in row `num`.
pub fn supportof(num: usize, support: &IntMatrix, plan: &Vec<Op>) -> (res: Vec<Resume>)
    requires
        support.wf(),
        num < support@.len() <= support.spec_ncols(),
        plan@.len() < i32::MAX,
    ensures
        res@ == records_where(plan@, support@.len() as int, |i: int| support@[num as int][i] == 1),
{
    let ghost p = |i: int| support@[num as int][i] == 1;
    let t = support.nrows();
    let mut out: Vec<Resume> = Vec::new();
    let mut i: usize = 0;
    while i < t
        invariant
            i <= t == support@.len() <= support.spec_ncols(),
            support.wf(),
            num < t,
            plan@.len() < i32::MAX,
            p == (|i: int| support@[num as int][i] == 1),
            out@ == records_where(plan@, i as int, p),
        decreases t - i,
    {
        if support.get(num, i) == 1 && i < plan.len() {
            out.push(newresume(plan[i], i as i32));
        }
        i = i + 1;
    }
    out
}

/// Whether running step `a` before step `b` can hinder `b`: a non-zero entry of the threats.
pub fn menacefromto(a: usize, b: usize, menace: &IntMatrix) -> (res: bool)
    requires
        menace.wf(),
        a < menace@.len(),
        b < menace.spec_ncols(),
    ensures
        res == (menace@[a as int][b as int] != 0),
{
    menace.get(a, b) != 0
}

/// The position of the record of step `num` in a search result.
fn find_record(all: &Vec<Necessaire>, num: usize) -> (p: usize)
    requires
        has_idx(all@, num as int),
    ensures
        p < all@.len(),
        idx(all@[p as int]) == num,
        forall|j: int| 0 <= j < p ==> idx(#[trigger] all@[j]) != num,
{
    let mut p: usize = 0;
    while p < all.len()
        invariant
            p <= all@.len(),
            has_idx(all@, num as int),
            forall|j: int| 0 <= j < p ==> idx(#[trigger] all@[j]) != num,
        decreases all@.len() - p,
    {
        let n = all[p].opnec().numero();
        if n >= 0 && n as usize == num {
            return p;
        }
        p = p + 1;
    }
    proof {
        let w = choose|w: int| 0 <= w < all@.len() && idx(#[trigger] all@[w]) == num;
        assert(idx(all@[w]) != num);
    }
    p
}

/// A copy of the plan.
fn copy_plan(plan: &Vec<Op>) -> (res: Vec<Op>)
    ensures
        res@ == plan@,
{
    let mut v: Vec<Op> = Vec::new();
    let mut i: usize = 0;
    while i < plan.len()
        invariant
            i <= plan@.len(),
            v@ == plan@.subrange(0, i as int),
        decreases plan@.len() - i,
    {
        v.push(plan[i]);
        assert(v@ =~= plan@.subrange(0, i + 1));
        i = i + 1;
    }
    assert(v@ =~= plan@);
    v
}

/// Whether step `num` is necessary: whether a chain of support links (of at most `n` links, in
/// the matrix `support`) leads from it to a step that supports a goal.
pub fn isnecessary(num: usize, support: &IntMatrix, plan: &Vec<Op>, ground: &GroundProblem) -> (res: bool)
    requires
        num < plan@.len() < i32::MAX,
        ops_wf(ground.operators@, ground.initial_state@.len()),
        plan_in(ground.operators@, plan@),
        support.wf(),
        support@.len() > plan@.len(),
        support.spec_ncols() >= plan@.len(),
    ensures
        res == (dist(
            support@,
            plan@.len() as int,
            goal_sources(ground.operators@, ground.initial_state@, plan@, ground.goals@),
            plan@.len() as int,
            num as int,
        ) <= plan@.len()),
{
    let allnec = dijkstra2(support, copy_plan(plan), ground);
    let p = find_record(&allnec, num);
    allnec[p].nec()
}

/// The chain of support links that makes step `num` necessary, read from the step that supports
/// a goal; `None` when the step itself supports a goal, or is not necessary.
pub fn isnecessarydetail(num: usize, support: &IntMatrix, plan: &Vec<Op>, ground: &GroundProblem) -> (res: Option<Vec<Resume>>)
    requires
        num < plan@.len() < i32::MAX,
        ops_wf(ground.operators@, ground.initial_state@.len()),
        plan_in(ground.operators@, plan@),
        support.wf(),
        support@.len() > plan@.len(),
        support.spec_ncols() >= plan@.len(),
    ensures
        ({
            let n = plan@.len() as int;
            let src = goal_sources(ground.operators@, ground.initial_state@, plan@, ground.goals@);
            let d = dist(support@, n, src, n, num as int);
            &&& (res is Some) == (0 < d <= n)
            &&& res matches Some(v) ==> v@.len() == d && chain_ok(support@, n, src, plan_records(plan@), num as int, v@)
            &&& first_record(necessity_run(support@, plan_records(plan@), src, (n + 1) as u32), num as int) matches Some(r)
                && r.2 == path_view(res)
        }),
{
    let allnec = dijkstra2(support, copy_plan(plan), ground);
    let p = find_record(&allnec, num);
    proof {
        let v = necs_view(allnec@);
        assert forall|j: int| 0 <= j < p implies (#[trigger] v[j]).0.spec_numero() as int != num as int by {
            assert(idx(allnec@[j]) != num as int);
        }
        crate::explain::explain::lemma_first_record(v, num as int, p as int);
    }
    allnec[p].chemin()
}

/// The chain of support links between steps `a` and `b`, read from the earlier one, if the
/// later one reaches it through support links.
pub fn waybetween(a: usize, b: usize, support: &IntMatrix, plan: &Vec<Op>) -> (res: Option<Vec<Resume>>)
    requires
        a <= i32::MAX,
        b <= i32::MAX,
        0 < plan@.len() < i32::MAX,
        support.wf(),
        support@.len() > plan@.len(),
        support.spec_ncols() >= plan@.len(),
    ensures
        ({
            let n = plan@.len() as int;
            let (s1, s2) = if a > b {
                (a as i32, b as i32)
            } else {
                (b as i32, a as i32)
            };
            let src = single_source(s1, n);
            &&& (res is Some) == (0 <= s2 < n && 0 < dist(support@, n, src, n, s2 as int) <= n)
            &&& res matches Some(v) ==> v@.len() == dist(support@, n, src, n, s2 as int) && chain_ok(
                support@,
                n,
                src,
                plan_records(plan@),
                s2 as int,
                v@,
            )
            &&& 0 <= s2 < n ==> (first_record(necessity_run(support@, plan_records(plan@), src, (n + 1) as u32), s2 as int) matches Some(
                r,
            ) && r.2 == path_view(res))
        }),
{
    let step1 = a as i32;
    let step2 = b as i32;
    let nec = if step1 > step2 {
        explicationsupport(plan, support, step1, step2)
    } else {
        explicationsupport(plan, support, step2, step1)
    };
    nec.chemin()
}

/// Whether steps `a` and `b` are linked by a chain of support links.
pub fn waybetweenbool(a: usize, b: usize, support: &IntMatrix, plan: &Vec<Op>) -> (res: bool)
    requires
        a <= i32::MAX,
        b <= i32::MAX,
        0 < plan@.len() < i32::MAX,
        support.wf(),
        support@.len() > plan@.len(),
        support.spec_ncols() >= plan@.len(),
    ensures
        ({
            let n = plan@.len() as int;
            let (s1, s2) = if a > b {
                (a as i32, b as i32)
            } else {
                (b as i32, a as i32)
            };
            res == (0 <= s2 < n && 0 < dist(support@, n, single_source(s1, n), n, s2 as int) <= n)
        }),
{
    waybetween(a, b, support, plan).is_some()
}

/// Whether step `num` directly supports a goal: a 1 in the column of the goals (the last but
/// one).
pub fn achievegoal(num: usize, support: &IntMatrix) -> (res: bool)
    requires
        support.wf(),
        2 <= support@.len(),
        num < support@.len(),
        support@.len() - 2 < support.spec_ncols(),
    ensures
        res == (support@[num as int][support@.len() - 2] == 1),
{
    let t = support.nrows();
    support.get(num, t - 2) == 1
}

/// Whether one of the records `s` is about step `num`.
pub open spec fn has_numero_v(s: Seq<NecV>, num: i32) -> bool {
    exists|k: int| 0 <= k < s.len() && (#[trigger] s[k]).0.spec_numero() == num
}

/// The path of the last of the records `s` about step `num`, if there is one.
pub open spec fn last_path(s: Seq<NecV>, num: i32) -> Option<Seq<Resume>>
    decreases s.len(),
{
    if s.len() == 0 {
        None
    } else if s.last().0.spec_numero() == num {
        s.last().2
    } else {
        last_path(s.drop_last(), num)
    }
}

/// The view of an optional path.
pub open spec fn path_view(p: Option<Vec<Resume>>) -> Option<Seq<Resume>> {
    match p {
        Some(v) => Some(v@),
        None => None,
    }
}

/// The variables of the effects of the operators of the action of step `k`.
pub open spec fn step_action_vars(ground: GroundProblem, plan: Seq<Op>, k: int) -> Seq<SVId> {
    action_vars(ground.operators@, ground.operators@[plan[k].id as int].name[0], ground.operators@.len() as int)
}

/// The variables of the effects of the operators of the action `action`, if any.
pub open spec fn named_action_vars(ground: GroundProblem, action: Option<usize>) -> Seq<SVId> {
    match action {
        Some(a) => action_vars(ground.operators@, a, ground.operators@.len() as int),
        None => seq![],
    }
}

/// Whether the weighted necessity search, over the support matrix in which the links through
/// the variables of the action of step `exclusion` weigh `poids` (`weighted_result`), gives a
/// record of step `num`; it does for every step of the plan.
pub fn weightwaygoal(num: usize, exclusion: usize, support: &IntMatrix, plan: &Vec<Op>, ground: &GroundProblem, poids: i32) -> (res: bool)
    requires
        exclusion < plan@.len(),
        ground.operators@[plan@[exclusion as int].id as int].name.len() > 0,
        weighted_fits(
            support@,
            support.spec_ncols() as int,
            *ground,
            plan@,
            step_action_vars(*ground, plan@, exclusion as int),
            poids,
            false,
        ),
        ops_wf(ground.operators@, ground.initial_state@.len()),
        plan_in(ground.operators@, plan@),
        support.wf(),
        support@.len() > plan@.len(),
        support.spec_ncols() >= plan@.len(),
    ensures
        res == has_numero_v(
            weighted_result(
                support@,
                support.spec_ncols() as int,
                *ground,
                plan@,
                step_action_vars(*ground, plan@, exclusion as int),
                poids,
                false,
            ),
            num as i32,
        ),
        num < plan@.len() ==> res,
{
    let exclu = choixpredaction2(exclusion, plan, ground);
    let necs = dijkstrapoids(plan, ground, support, &exclu, poids);
    let ghost v = necs_view(necs@);
    let n = num as i32;
    let mut b = false;
    let mut k: usize = 0;
    while k < necs.len()
        invariant
            k <= necs@.len(),
            v == necs_view(necs@),
            b == exists|j: int| 0 <= j < k && (#[trigger] v[j]).0.spec_numero() == n,
        decreases necs@.len() - k,
    {
        if necs[k].opnec().numero() == n {
            b = true;
        }
        proof {
            assert(v[k as int].0 == necs@[k as int].spec_opnec());
            if v[k as int].0.spec_numero() == n {
                assert(0 <= k < k + 1 && v[k as int].0.spec_numero() == n);
            }
        }
        k = k + 1;
    }
    proof {
        if num < plan@.len() {
            assert(has_idx(necs@, num as int));
            let j = choose|j: int| 0 <= j < necs@.len() && idx(#[trigger] necs@[j]) == num as int;
            assert(v[j].0 == necs@[j].spec_opnec());
        }
    }
    b
}

/// The path of the last record of step `num` in the weighted necessity search, over the support
/// matrix in which the links through the variables of the action `action` weigh `poids`; none
/// if that record has none.
pub fn weightwaygoal2(
    num: usize,
    action: Option<usize>,
    support: &IntMatrix,
    plan: &Vec<Op>,
    ground: &GroundProblem,
    poids: i32,
) -> (res: Option<Vec<Resume>>)
    requires
        num < plan@.len(),
        weighted_fits(support@, support.spec_ncols() as int, *ground, plan@, named_action_vars(*ground, action), poids, false),
        ops_wf(ground.operators@, ground.initial_state@.len()),
        plan_in(ground.operators@, plan@),
        support.wf(),
        support@.len() > plan@.len(),
        support.spec_ncols() >= plan@.len(),
    ensures
        path_view(res) == last_path(
            weighted_result(
                support@,
                support.spec_ncols() as int,
                *ground,
                plan@,
                named_action_vars(*ground, action),
                poids,
                false,
            ),
            num as i32,
        ),
{
    let exclu = choixpredaction3(action, plan, ground);
    let necs = dijkstrapoids(plan, ground, support, &exclu, poids);
    let ghost v = necs_view(necs@);
    let n = num as i32;
    let mut out: Option<Vec<Resume>> = None;
    let mut k: usize = 0;
    while k < necs.len()
        invariant
            k <= necs@.len(),
            v == necs_view(necs@),
            path_view(out) == last_path(v.take(k as int), n),
        decreases necs@.len() - k,
    {
        proof {
            assert(v.take(k + 1).drop_last() =~= v.take(k as int));
            assert(v.take(k + 1).last() == v[k as int]);
            assert(v[k as int].0 == necs@[k as int].spec_opnec());
            assert(v[k as int].2 == necs@[k as int].spec_chemin());
        }
        if necs[k].opnec().numero() == n {
            out = necs[k].chemin();
        }
        k = k + 1;
    }
    proof {
        assert(v.take(k as int) =~= v);
    }
    out
}

/// What the weighted indirect support questions require of their inputs.
pub open spec fn indirect_ok(support: IntMatrix, plan: Seq<Op>, ground: GroundProblem) -> bool {
    &&& 0 < plan.len() < i32::MAX
    &&& plan.len() * plan.len() + 2 <= u32::MAX
    &&& plan_in(ground.operators@, plan)
    &&& support.wf()
    &&& support@.len() > plan.len()
    &&& support.spec_ncols() >= plan.len()
}

/// The support matrix weighted by `vars` (`avantage` as `weighted_entry` says).
pub open spec fn weighted_support(support: IntMatrix, plan: Seq<Op>, ground: GroundProblem, vars: Seq<SVId>, poids: i32, avantage: bool) -> Seq<Seq<i32>> {
    weighted_seq(support@, support.spec_ncols() as int, ground.operators@, plan, vars, poids, avantage)
}

/// Whether the indirect support search from `step1` over `m` reaches step `step2` through a
/// chain of at most `n * n` links (at least one).
pub open spec fn way_exists(m: Seq<Seq<i32>>, plan: Seq<Op>, step1: i32, step2: i32) -> bool {
    let n = plan.len() as int;
    &&& 0 <= step2 < n
    &&& 0 < dist(m, n, single_source(step1, n), n * n, step2 as int) <= n * n
}

/// Whether `p` is what the indirect support search from `step1` over `m` gives as path for
/// `step2`: the path of its first record in `necessity_run` for a step of the plan, which is a
/// shortest chain of support links from `step2` to `step1` (read from `step1`) where one
/// exists, none otherwise.
pub open spec fn way_detail(m: Seq<Seq<i32>>, plan: Seq<Op>, step1: i32, step2: i32, p: Option<Seq<Resume>>) -> bool {
    let n = plan.len() as int;
    let src = single_source(step1, n);
    &&& 0 <= step2 < n ==> (first_record(necessity_run(m, plan_records(plan), src, (n * n + 1) as u32), step2 as int) matches Some(
        r,
    ) && r.2 == p)
    &&& match p {
        Some(v) => way_exists(m, plan, step1, step2) && v.len() == dist(m, n, src, n * n, step2 as int) && chain_ok(
            m,
            n,
            src,
            plan_records(plan),
            step2 as int,
            v,
        ),
        None => !way_exists(m, plan, step1, step2),
    }
}

/// The path of a record of the indirect support search is what `way_detail` says.
proof fn lemma_way_detail(m: Seq<Seq<i32>>, plan: Seq<Op>, step1: i32, step2: i32, e: Necessaire)
    requires
        indirect_result(m, plan, step1, step2, e),
    ensures
        way_detail(m, plan, step1, step2, e.spec_chemin()),
{
}

/// The path between `step1` and `step2` in the weighted indirect support search, over the
/// support matrix in which the links through the variables of the action `action` weigh
/// `poids`.
pub fn weightwaydetail(
    step1: usize,
    step2: usize,
    action: Option<usize>,
    support: &IntMatrix,
    plan: &Vec<Op>,
    ground: &GroundProblem,
    poids: i32,
) -> (res: Option<Vec<Resume>>)
    requires
        indirect_ok(*support, plan@, *ground),
    ensures
        way_detail(
            weighted_support(*support, plan@, *ground, named_action_vars(*ground, action), poids, false),
            plan@,
            step1 as i32,
            step2 as i32,
            path_view(res),
        ),
{
    let exclu = choixpredaction3(action, plan, ground);
    let necs = supportindirectpoid(step1 as i32, step2 as i32, plan, ground, support, &exclu, poids);
    let r = necs.chemin();
    proof {
        lemma_way_detail(
            weighted_seq(support@, support.spec_ncols() as int, ground.operators@, plan@, exclu@, poids, false),
            plan@,
            step1 as i32,
            step2 as i32,
            necs,
        );
    }
    assert(necs.spec_chemin() == path_view(r));
    r
}

/// Whether there is a path between `step1` and `step2` in the weighted indirect support search,
/// over the support matrix in which the links through the variables of the action `action`
/// weigh `poids`.
pub fn weightway(
    step1: usize,
    step2: usize,
    action: Option<usize>,
    support: &IntMatrix,
    plan: &Vec<Op>,
    ground: &GroundProblem,
    poids: i32,
) -> (res: bool)
    requires
        indirect_ok(*support, plan@, *ground),
    ensures
        res == way_exists(
            weighted_support(*support, plan@, *ground, named_action_vars(*ground, action), poids, false),
            plan@,
            step1 as i32,
            step2 as i32,
        ),
{
    let out = weightwaydetail(step1, step2, action, support, plan, ground, poids);
    assert(path_view(out).is_some() == out.is_some());
    out.is_some()
}

/// The path between `step1` and `step2` in the weighted indirect support search, over the
/// support matrix in which the links that do not go through the variables of the action
/// `action` weigh `poids`.
pub fn inverseweightwaydetail(
    step1: usize,
    step2: usize,
    action: Option<usize>,
    support: &IntMatrix,
    plan: &Vec<Op>,
    ground: &GroundProblem,
    poids: i32,
) -> (res: Option<Vec<Resume>>)
    requires
        indirect_ok(*support, plan@, *ground),
    ensures
        way_detail(
            weighted_support(*support, plan@, *ground, named_action_vars(*ground, action), poids, true),
            plan@,
            step1 as i32,
            step2 as i32,
            path_view(res),
        ),
{
    let exclu = choixpredaction3(action, plan, ground);
    let necs = supportindirectavantagepoid(step1 as i32, step2 as i32, plan, ground, support, &exclu, poids);
    let r = necs.chemin();
    proof {
        lemma_way_detail(
            weighted_seq(support@, support.spec_ncols() as int, ground.operators@, plan@, exclu@, poids, true),
            plan@,
            step1 as i32,
            step2 as i32,
            necs,
        );
    }
    assert(necs.spec_chemin() == path_view(r));
    r
}

/// Whether there is a path between `step1` and `step2` in the weighted indirect support search,
/// over the support matrix in which the links that do not go through the variables of the
/// action `action` weigh `poids`.
pub fn inverseweightway(
    step1: usize,
    step2: usize,
    action: Option<usize>,
    support: &IntMatrix,
    plan: &Vec<Op>,
    ground: &GroundProblem,
    poids: i32,
) -> (res: bool)
    requires
        indirect_ok(*support, plan@, *ground),
    ensures
        res == way_exists(
            weighted_support(*support, plan@, *ground, named_action_vars(*ground, action), poids, true),
            plan@,
            step1 as i32,
            step2 as i32,
        ),
{
    let out = inverseweightwaydetail(step1, step2, action, support, plan, ground, poids);
    assert(path_view(out).is_some() == out.is_some());
    out.is_some()
}

/// The path between `step1` and `step2` in the weighted indirect support search, over the
/// support matrix in which the links through the variables of the action of step `step` weigh
/// `poids`.
pub fn weightwaydetailetape(
    step1: usize,
    step2: usize,
    step: usize,
    support: &IntMatrix,
    plan: &Vec<Op>,
    ground: &GroundProblem,
    poids: i32,
) -> (res: Option<Vec<Resume>>)
    requires
        indirect_ok(*support, plan@, *ground),
        step < plan@.len(),
        ground.operators@[plan@[step as int].id as int].name.len() > 0,
    ensures
        way_detail(
            weighted_support(*support, plan@, *ground, step_action_vars(*ground, plan@, step as int), poids, false),
            plan@,
            step1 as i32,
            step2 as i32,
            path_view(res),
        ),
{
    let exclu = choixpredaction2(step, plan, ground);
    let necs = supportindirectpoid(step1 as i32, step2 as i32, plan, ground, support, &exclu, poids);
    let r = necs.chemin();
    proof {
        lemma_way_detail(
            weighted_seq(support@, support.spec_ncols() as int, ground.operators@, plan@, exclu@, poids, false),
            plan@,
            step1 as i32,
            step2 as i32,
            necs,
        );
    }
    assert(necs.spec_chemin() == path_view(r));
    r
}

/// Whether there is a path between `step1` and `step2` in the weighted indirect support search,
/// over the support matrix in which the links through the variables of the action of step
/// `step` weigh `poids`.
pub fn weightwayetape(
    step1: usize,
    step2: usize,
    step: usize,
    support: &IntMatrix,
    plan: &Vec<Op>,
    ground: &GroundProblem,
    poids: i32,
) -> (res: bool)
    requires
        indirect_ok(*support, plan@, *ground),
        step < plan@.len(),
        ground.operators@[plan@[step as int].id as int].name.len() > 0,
    ensures
        res == way_exists(
            weighted_support(*support, plan@, *ground, step_action_vars(*ground, plan@, step as int), poids, false),
            plan@,
            step1 as i32,
            step2 as i32,
        ),
{
    let out = weightwaydetailetape(step1, step2, step, support, plan, ground, poids);
    assert(path_view(out).is_some() == out.is_some());
    out.is_some()
}

/// The path between `step1` and `step2` in the weighted indirect support search, over the
/// support matrix in which the links that do not go through the variables of the action of step
/// `step` weigh `poids`.
pub fn inverseweightwaydetailetape(
    step1: usize,
    step2: usize,
    step: usize,
    support: &IntMatrix,
    plan: &Vec<Op>,
    ground: &GroundProblem,
    poids: i32,
) -> (res: Option<Vec<Resume>>)
    requires
        indirect_ok(*support, plan@, *ground),
        step < plan@.len(),
        ground.operators@[plan@[step as int].id as int].name.len() > 0,
    ensures
        way_detail(
            weighted_support(*support, plan@, *ground, step_action_vars(*ground, plan@, step as int), poids, true),
            plan@,
            step1 as i32,
            step2 as i32,
            path_view(res),
        ),
{
    let exclu = choixpredaction2(step, plan, ground);
    let necs = supportindirectavantagepoid(step1 as i32, step2 as i32, plan, ground, support, &exclu, poids);
    let r = necs.chemin();
    proof {
        lemma_way_detail(
            weighted_seq(support@, support.spec_ncols() as int, ground.operators@, plan@, exclu@, poids, true),
            plan@,
            step1 as i32,
            step2 as i32,
            necs,
        );
    }
    assert(necs.spec_chemin() == path_view(r));
    r
}

/// Whether there is a path between `step1` and `step2` in the weighted indirect support search,
/// over the support matrix in which the links that do not go through the variables of the action
/// of step `step` weigh `poids`.
pub fn inverseweightwayetape(
    step1: usize,
    step2: usize,
    step: usize,
    support: &IntMatrix,
    plan: &Vec<Op>,
    ground: &GroundProblem,
    poids: i32,
) -> (res: bool)
    requires
        indirect_ok(*support, plan@, *ground),
        step < plan@.len(),
        ground.operators@[plan@[step as int].id as int].name.len() > 0,
    ensures
        res == way_exists(
            weighted_support(*support, plan@, *ground, step_action_vars(*ground, plan@, step as int), poids, true),
            plan@,
            step1 as i32,
            step2 as i32,
        ),
{
    let out = inverseweightwaydetailetape(step1, step2, step, support, plan, ground, poids);
    assert(path_view(out).is_some() == out.is_some());
    out.is_some()
}

/// The steps linked by support to a step of another group, for the groups of steps around the
/// symbols `ids` (those of the parameters, where the symbol table has them): `synchronisation`
/// over the groups of `coordination`.
pub fn researchsynchro(ids: &Vec<Option<usize>>, support: &IntMatrix, plan: &Vec<Op>, ground: &GroundProblem) -> (res: Vec<
    Resume,
>)
    requires
        plan@.len() <= i32::MAX,
        plan_in(ground.operators@, plan@),
        support.wf(),
        support@.len() >= plan@.len(),
        support.spec_ncols() >= plan@.len(),
    ensures
        res@ == over_steps(plan@.len() as int, sync_rows(support@, coordination_v(ground.operators@, plan@, ids@), plan@)),
{
    let hash = coordination(ids, plan, ground);
    synchronisation(&hash, support, plan)
}

/// The later (`.1`) and the earlier (`.0`) of two steps.
pub open spec fn ordered(a: usize, b: usize) -> (usize, usize) {
    if a > b {
        (b, a)
    } else {
        (a, b)
    }
}

/// Whether the later of steps `a` and `b` reaches the earlier one through a chain of at most `n`
/// support links.
pub open spec fn support_chain(support: Seq<Seq<i32>>, n: int, a: usize, b: usize) -> bool {
    let (lo, hi) = ordered(a, b);
    0 <= lo < n && dist(support, n, single_source(hi as i32, n), n, lo as int) <= n
}

/// The threat that keeps steps `a` and `b` apart, if any: that of `b` on `a` first, else that of
/// `a` on `b`; before a support of the threatened step, or after it.
pub open spec fn threat_between(
    support: Seq<Seq<i32>>,
    sncols: int,
    menace: Seq<Seq<i32>>,
    mncols: int,
    n: int,
    a: usize,
    b: usize,
) -> Parallelisabledetail {
    let of = |t: Option<(usize, usize, Option<usize>)>, other: Parallelisabledetail| match t {
        Some((s1, s2, i)) => if i is Some {
            Parallelisabledetail::Menace_Avant { origine: s1, vers: s2, supportconcern: i }
        } else {
            Parallelisabledetail::Menace_Apres { origine: s1, vers: s2 }
        },
        None => other,
    };
    of(
        threat_detail(support, sncols, menace, mncols, n, b as i32, a as i32),
        of(threat_detail(support, sncols, menace, mncols, n, a as i32, b as i32), Parallelisabledetail::Oui),
    )
}

/// Whether steps `a` and `b` of the plan can run in parallel, and if not, why: a direct support
/// of the later step by the earlier one; else a chain of support links between them (the path
/// of the earlier step in the search from the later one, read from the later step, empty when
/// both are the same step); else a threat of one on the other (see `threat_between`).
pub fn parallelisable(
    a: usize,
    b: usize,
    support: &IntMatrix,
    menace: &IntMatrix,
    plan: &Vec<Op>,
    ground: &GroundProblem,
) -> (res: Parallelisabledetail)
    requires
        a <= i32::MAX,
        b <= i32::MAX,
        0 < plan@.len() < i32::MAX,
        support.wf(),
        support@.len() > plan@.len(),
        support.spec_ncols() >= plan@.len(),
        a < support@.len(),
        b < support@.len(),
        a < support.spec_ncols(),
        b < support.spec_ncols(),
        menace.wf(),
    ensures
        ({
            let n = plan@.len() as int;
            let (lo, hi) = ordered(a, b);
            if support@[lo as int][hi as int] == 1 {
                res == Parallelisabledetail::Support_Direct { origine: lo, vers: hi }
            } else if support_chain(support@, n, a, b) {
                let src = single_source(hi as i32, n);
                let d = dist(support@, n, src, n, lo as int);
                res matches Parallelisabledetail::Support_Indirect { origine, vers, chemin } && origine == a && vers == b
                    && (if d == 0 {
                    chemin@.len() == 0
                } else {
                    chemin@.len() == d && chain_ok(support@, n, src, plan_records(plan@), lo as int, chemin@)
                }) && (first_record(necessity_run(support@, plan_records(plan@), src, (n + 1) as u32), lo as int) matches Some(r)
                    && chemin@ == match r.2 {
                    Some(c) => c,
                    None => seq![],
                })
            } else {
                res == threat_between(
                    support@,
                    support.spec_ncols() as int,
                    menace@,
                    menace.spec_ncols() as int,
                    n,
                    a,
                    b,
                )
            }
        }),
{
    let ai = a as i32;
    let bi = b as i32;
    let (lo, hi) = if a > b {
        (b, a)
    } else {
        (a, b)
    };
    if support.get(lo, hi) == 1 {
        return Parallelisabledetail::Support_Direct { origine: lo, vers: hi };
    }
    let nec = explicationsupport(plan, support, hi as i32, lo as i32);
    if nec.nec() {
        let chemin = match nec.chemin() {
            Some(c) => c,
            None => Vec::new(),
        };
        return Parallelisabledetail::Support_Indirect { origine: a, vers: b, chemin };
    }
    let mut p = Parallelisabledetail::Oui;
    let opt = explicationmenacequestiondetail(plan, menace, support, ai, bi);
    if let Some((s1, s2, i)) = opt {
        if i.is_some() {
            p = Parallelisabledetail::Menace_Avant { origine: s1, vers: s2, supportconcern: i };
        } else {
            p = Parallelisabledetail::Menace_Apres { origine: s1, vers: s2 };
        }
    }
    let opt = explicationmenacequestiondetail(plan, menace, support, bi, ai);
    if let Some((s1, s2, i)) = opt {
        if i.is_some() {
            p = Parallelisabledetail::Menace_Avant { origine: s1, vers: s2, supportconcern: i };
        } else {
            p = Parallelisabledetail::Menace_Apres { origine: s1, vers: s2 };
        }
    }
    p
}

/// Whether steps `a` and `b` can run in parallel, and if not, whether a support or a threat
/// keeps them apart, with the steps concerned (as `parallelisable` finds them).
pub fn parallelisablebool(
    a: usize,
    b: usize,
    support: &IntMatrix,
    menace: &IntMatrix,
    plan: &Vec<Op>,
    ground: &GroundProblem,
) -> (res: Parallelisable)
    requires
        a <= i32::MAX,
        b <= i32::MAX,
        0 < plan@.len() < i32::MAX,
        support.wf(),
        support@.len() > plan@.len(),
        support.spec_ncols() >= plan@.len(),
        a < support@.len(),
        b < support@.len(),
        a < support.spec_ncols(),
        b < support.spec_ncols(),
        menace.wf(),
    ensures
        ({
            let n = plan@.len() as int;
            let (lo, hi) = ordered(a, b);
            if support@[lo as int][hi as int] == 1 {
                res == Parallelisable::Non_support { origine: lo, vers: hi }
            } else if support_chain(support@, n, a, b) {
                res == Parallelisable::Non_support { origine: a, vers: b }
            } else {
                res == match threat_between(
                    support@,
                    support.spec_ncols() as int,
                    menace@,
                    menace.spec_ncols() as int,
                    n,
                    a,
                    b,
                ) {
                    Parallelisabledetail::Menace_Avant { origine, vers, .. } => Parallelisable::Non_menace { origine, vers },
                    Parallelisabledetail::Menace_Apres { origine, vers } => Parallelisable::Non_menace { origine, vers },
                    _ => Parallelisable::Oui,
                }
            }
        }),
{
    let qd = parallelisable(a, b, support, menace, plan, ground);
    match qd {
        Parallelisabledetail::Menace_Avant { origine, vers, supportconcern: _ } => Parallelisable::Non_menace { origine, vers },
        Parallelisabledetail::Menace_Apres { origine, vers } => Parallelisable::Non_menace { origine, vers },
        Parallelisabledetail::Support_Direct { origine, vers } => Parallelisable::Non_support { origine, vers },
        Parallelisabledetail::Support_Indirect { origine, vers, chemin: _ } => Parallelisable::Non_support { origine, vers },
        Parallelisabledetail::Oui => Parallelisable::Oui,
    }
}

/// The questions that can be asked about a plan.
#[derive(Debug, Clone, Copy, PartialEq, Eq, Structural)]
pub enum Question {
    NoQuestion,
    SupportBy,
    SupportOf,
    Menace,
    Necessarybool,
    Necessary,
    Waybetweenbool,
    Waybetween,
    Parallelisablebool,
    Parallelisable,
    AchieveGoal,
    Synchronisation,
    Betweeness,
    Weigthway,
    Qundefined,
}

/// The question a word asks.
pub open spec fn question_named(w: Seq<char>) -> Question {
    if w == "0"@ {
        Question::NoQuestion
    } else if w == "1"@ {
        Question::SupportBy
    } else if w == "2"@ {
        Question::SupportOf
    } else if w == "3"@ {
        Question::Menace
    } else if w == "4"@ {
        Question::Necessarybool
    } else if w == "4d"@ {
        Question::Necessary
    } else if w == "5"@ {
        Question::Waybetweenbool
    } else if w == "5d"@ {
        Question::Waybetween
    } else if w == "6"@ {
        Question::Parallelisablebool
    } else if w == "6d"@ {
        Question::Parallelisable
    } else if w == "7"@ {
        Question::AchieveGoal
    } else if w == "8s"@ || w == "Synchro"@ || w == "synchronisation"@ || w == "synchro"@ {
        Question::Synchronisation
    } else if w == "8b"@ {
        Question::Betweeness
    } else if w == "9"@ {
        Question::Weigthway
    } else {
        Question::Qundefined
    }
}

/// The question asked by the first word of a question.
pub fn selectionquestion(w: &str) -> (res: Question)
    ensures
        res == question_named(w@),
{
    if str_is(w, "0") {
        Question::NoQuestion
    } else if str_is(w, "1") {
        Question::SupportBy
    } else if str_is(w, "2") {
        Question::SupportOf
    } else if str_is(w, "3") {
        Question::Menace
    } else if str_is(w, "4") {
        Question::Necessarybool
    } else if str_is(w, "4d") {
        Question::Necessary
    } else if str_is(w, "5") {
        Question::Waybetweenbool
    } else if str_is(w, "5d") {
        Question::Waybetween
    } else if str_is(w, "6") {
        Question::Parallelisablebool
    } else if str_is(w, "6d") {
        Question::Parallelisable
    } else if str_is(w, "7") {
        Question::AchieveGoal
    } else if str_is(w, "8s") || str_is(w, "Synchro") || str_is(w, "synchronisation") || str_is(w, "synchro") {
        Question::Synchronisation
    } else if str_is(w, "8b") {
        Question::Betweeness
    } else if str_is(w, "9") {
        Question::Weigthway
    } else {
        Question::Qundefined
    }
}

} // verus!
