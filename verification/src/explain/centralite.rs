//! Centrality of the steps of a plan in its support matrix: how many links enter and leave each
//! step, and the steps grouped by those counts, by operator or by action.
use vstd::prelude::*;
use crate::classical::state::Op;
use crate::classical::GroundProblem;
use crate::explain::state2::{Resume, newresume};
use crate::explain::matrix::IntMatrix;
use crate::explain::abstraction::{named_plan, action_syms};

verus! {

/// How many of the first `upto` rows of `m` have a non-zero entry in column `c`.
pub open spec fn col_count(m: Seq<Seq<i32>>, c: int, upto: int) -> nat
    decreases upto,
{
    if upto <= 0 {
        0
    } else {
        col_count(m, c, upto - 1) + if m[upto - 1][c] != 0 {
            1nat
        } else {
            0nat
        }
    }
}

/// How many of the first `upto` columns of `m` have a non-zero entry in row `r`.
pub open spec fn row_count(m: Seq<Seq<i32>>, r: int, upto: int) -> nat
    decreases upto,
{
    if upto <= 0 {
        0
    } else {
        row_count(m, r, upto - 1) + if m[r][upto - 1] != 0 {
            1nat
        } else {
            0nat
        }
    }
}

/// The counts are at most the number of rows or columns counted.
proof fn lemma_counts(m: Seq<Seq<i32>>, c: int, upto: int)
    requires
        upto >= 0,
    ensures
        col_count(m, c, upto) <= upto,
        row_count(m, c, upto) <= upto,
    decreases upto,
{
    if upto > 0 {
        lemma_counts(m, c, upto - 1);
    }
}

/// For each row `k` of the support matrix: the number of links that enter step `k` (non-zero
/// entries in column `k`) and the number that leave it (non-zero entries in row `k`).
pub fn calculcentraliteglobal2(support: &IntMatrix) -> (res: Vec<(usize, usize)>)
    requires
        support.wf(),
        support@.len() <= support.spec_ncols(),
    ensures
        res@ == Seq::new(
            support@.len(),
            |k: int| (col_count(support@, k, support@.len() as int) as usize, row_count(support@, k, support.spec_ncols() as int) as usize),
        ),
{
    let ghost m = support@;
    let i = support.nrows();
    let j = support.ncols();
    let mut sumligne: Vec<usize> = Vec::new();
    while sumligne.len() < i
        invariant
            sumligne@.len() <= i,
            forall|r: int| 0 <= r < sumligne@.len() ==> sumligne@[r] == 0,
        decreases i - sumligne@.len(),
    {
        sumligne.push(0);
    }
    let mut sumcolonne: Vec<usize> = Vec::new();
    while sumcolonne.len() < j
        invariant
            sumcolonne@.len() <= j,
            forall|c: int| 0 <= c < sumcolonne@.len() ==> sumcolonne@[c] == 0,
        decreases j - sumcolonne@.len(),
    {
        sumcolonne.push(0);
    }
    let mut row: usize = 0;
    while row < i
        invariant
            i == m.len() <= j,
            j == support.spec_ncols(),
            m == support@,
            support.wf(),
            row <= i,
            sumligne@.len() == i,
            sumcolonne@.len() == j,
            forall|r: int| 0 <= r < i ==> #[trigger] sumligne@[r] == if r < row {
                row_count(m, r, j as int)
            } else {
                0
            },
            forall|c: int| 0 <= c < j ==> #[trigger] sumcolonne@[c] == col_count(m, c, row as int),
        decreases i - row,
    {
        let mut col: usize = 0;
        while col < j
            invariant
                i == m.len() <= j,
                j == support.spec_ncols(),
                m == support@,
                support.wf(),
                row < i,
                col <= j,
                sumligne@.len() == i,
                sumcolonne@.len() == j,
                forall|r: int| 0 <= r < i ==> #[trigger] sumligne@[r] == if r < row {
                    row_count(m, r, j as int)
                } else if r == row {
                    row_count(m, r, col as int)
                } else {
                    0
                },
                forall|c: int| 0 <= c < j ==> #[trigger] sumcolonne@[c] == col_count(m, c, row as int) + if c < col && m[row as int][c] != 0 {
                    1nat
                } else {
                    0nat
                },
            decreases j - col,
        {
            proof {
                lemma_counts(m, row as int, col as int);
                lemma_counts(m, col as int, row as int);
            }
            if support.get(row, col) != 0 {
                let a = sumligne[row] + 1;
                sumligne.set(row, a);
                let b = sumcolonne[col] + 1;
                sumcolonne.set(col, b);
            }
            col = col + 1;
        }
        row = row + 1;
    }
    let mut out: Vec<(usize, usize)> = Vec::new();
    let mut index: usize = 0;
    while index < i
        invariant
            i == m.len() <= j,
            j == support.spec_ncols(),
            index <= i,
            sumligne@.len() == i,
            sumcolonne@.len() == j,
            forall|r: int| 0 <= r < i ==> #[trigger] sumligne@[r] == row_count(m, r, j as int),
            forall|c: int| 0 <= c < j ==> #[trigger] sumcolonne@[c] == col_count(m, c, i as int),
            out@ == Seq::new(index as nat, |k: int| (col_count(m, k, i as int) as usize, row_count(m, k, j as int) as usize)),
        decreases i - index,
    {
        out.push((sumcolonne[index], sumligne[index]));
        assert(out@ =~= Seq::new((index + 1) as nat, |k: int| (col_count(m, k, i as int) as usize, row_count(m, k, j as int) as usize)));
        index = index + 1;
    }
    out
}

/// Keys compared by value.
pub trait KeyEq: Sized {
    /// Whether the two keys are the same.
    fn key_eq(&self, other: &Self) -> (b: bool)
        ensures
            b == (*self == *other),
    ;
}

impl KeyEq for Op {
    fn key_eq(&self, other: &Self) -> (b: bool) {
        self.id == other.id
    }
}

impl KeyEq for usize {
    fn key_eq(&self, other: &Self) -> (b: bool) {
        *self == *other
    }
}

impl KeyEq for (usize, usize) {
    fn key_eq(&self, other: &Self) -> (b: bool) {
        self.0 == other.0 && self.1 == other.1
    }
}

/// The values of `s`, each once, in the order of their first occurrence.
pub open spec fn distinct_vals<K>(s: Seq<K>) -> Seq<K>
    decreases s.len(),
{
    if s.len() == 0 {
        seq![]
    } else {
        let d = distinct_vals(s.drop_last());
        if d.contains(s.last()) {
            d
        } else {
            d.push(s.last())
        }
    }
}

/// The values of `vs` at the positions where `ks` holds `key`, in order.
pub open spec fn values_of<K, V>(ks: Seq<K>, vs: Seq<V>, key: K) -> Seq<V>
    decreases ks.len(),
{
    if ks.len() == 0 {
        seq![]
    } else {
        values_of(ks.drop_last(), vs, key) + if ks.last() == key {
            seq![vs[ks.len() - 1]]
        } else {
            seq![]
        }
    }
}

/// The groups of `group_by`: one per key of `preset`, then of `ks`, each once in the order of
/// first occurrence, with the values of `vs` at the positions where `ks` holds it.
pub open spec fn grouped<K, V>(preset: Seq<K>, ks: Seq<K>, vs: Seq<V>) -> Seq<(K, Seq<V>)> {
    distinct_vals(preset + ks).map_values(|key: K| (key, values_of(ks, vs, key)))
}

/// What each group holds.
pub open spec fn groups_v<K, V>(g: Seq<(K, Vec<V>)>) -> Seq<(K, Seq<V>)> {
    g.map_values(|x: (K, Vec<V>)| (x.0, x.1@))
}

/// Position of the group of `key`, if any.
fn find_group<K: KeyEq + Copy, V>(g: &Vec<(K, Vec<V>)>, key: &K) -> (p: usize)
    ensures
        p <= g@.len(),
        p < g@.len() ==> g@[p as int].0 == *key,
        p == g@.len() ==> forall|j: int| 0 <= j < g@.len() ==> (#[trigger] g@[j]).0 != *key,
{
    let mut p: usize = 0;
    while p < g.len()
        invariant
            p <= g@.len(),
            forall|j: int| 0 <= j < p ==> (#[trigger] g@[j]).0 != *key,
        decreases g@.len() - p,
    {
        if g[p].0.key_eq(key) {
            return p;
        }
        p = p + 1;
    }
    p
}

/// Groups the values `vs` by the keys `ks` (same positions), after the keys `preset`
/// (`grouped`).
fn group_by<K: KeyEq + Copy, V: Copy>(preset: &Vec<K>, ks: &Vec<K>, vs: &Vec<V>) -> (res: Vec<(K, Vec<V>)>)
    requires
        ks@.len() == vs@.len(),
    ensures
        groups_v(res@) == grouped(preset@, ks@, vs@),
{
    let ghost all = preset@ + ks@;
    let mut g: Vec<(K, Vec<V>)> = Vec::new();
    let mut k: usize = 0;
    while k < preset.len()
        invariant
            k <= preset@.len(),
            all == preset@ + ks@,
            groups_v(g@) == distinct_vals(all.take(k as int)).map_values(|key: K| (key, Seq::<V>::empty())),
        decreases preset@.len() - k,
    {
        proof {
            assert(all.take(k + 1) =~= all.take(k as int).push(preset@[k as int]));
        }
        add_key(&mut g, preset[k], Ghost(all.take(k as int)));
        k = k + 1;
    }
    let mut q: usize = 0;
    while q < ks.len()
        invariant
            q <= ks@.len(),
            ks@.len() == vs@.len(),
            all == preset@ + ks@,
            groups_v(g@) == distinct_vals(all.take(preset@.len() + q)).map_values(|key: K| (key, values_of(ks@.take(q as int), vs@, key))),
        decreases ks@.len() - q,
    {
        let key = ks[q];
        let ghost before = groups_v(g@);
        let ghost d = distinct_vals(all.take(preset@.len() + q));
        let ghost kq = ks@.take(q as int);
        let ghost kq1 = ks@.take(q + 1);
        proof {
            assert(all.take(preset@.len() + q + 1).drop_last() =~= all.take(preset@.len() + q));
            assert(all.take(preset@.len() + q + 1).last() == key);
            assert(kq1.drop_last() =~= kq);
            assert(kq1.last() == key);
            assert(before.len() == g@.len() && before.len() == d.len());
        }
        let p = find_group(&g, &key);
        if p < g.len() {
            let ghost gb = g@;
            g[p].1.push(vs[q]);
            proof {
                assert(before[p as int] == (gb[p as int].0, gb[p as int].1@));
                assert(d[p as int] == key);
                assert(d.contains(key));
                assert forall|j: int| 0 <= j < g@.len() implies #[trigger] groups_v(g@)[j] == (d[j], values_of(kq1, vs@, d[j])) by {
                    assert(before[j] == (gb[j].0, gb[j].1@));
                    assert(before[j] == (d[j], values_of(kq, vs@, d[j])));
                    if j == p {
                        assert(groups_v(g@)[j] =~= (d[j], values_of(kq1, vs@, d[j])));
                    } else {
                        assert(g@[j] == gb[j]);
                        if d[j] == key {
                            assert(gb[j].0 == key);
                            assert(gb[j].0 == gb[p as int].0);
                            lemma_distinct_vals(all.take(preset@.len() + q));
                            assert(false);
                        }
                        assert(values_of(kq1, vs@, d[j]) =~= values_of(kq, vs@, d[j]));
                    }
                }
                assert(groups_v(g@) =~= d.map_values(|x: K| (x, values_of(kq1, vs@, x))));
            }
        } else {
            proof {
                assert(!d.contains(key)) by {
                    if d.contains(key) {
                        let j = choose|j: int| 0 <= j < d.len() && d[j] == key;
                        assert(before[j] == (g@[j].0, g@[j].1@));
                    }
                }
            }
            let ghost gb = g@;
            let mut nv: Vec<V> = Vec::new();
            nv.push(vs[q]);
            g.push((key, nv));
            proof {
                let e = d.push(key).map_values(|x: K| (x, values_of(kq1, vs@, x)));
                assert forall|j: int| 0 <= j < g@.len() implies #[trigger] groups_v(g@)[j] == e[j] by {
                    if j < gb.len() {
                        assert(g@[j] == gb[j]);
                        assert(before[j] == (gb[j].0, gb[j].1@));
                        assert(before[j] == (d[j], values_of(kq, vs@, d[j])));
                        assert(d[j] != key);
                        assert(values_of(kq1, vs@, d[j]) =~= values_of(kq, vs@, d[j]));
                    } else {
                        assert(all.take(preset@.len() + q).subrange(preset@.len() as int, preset@.len() + q) =~= kq);
                        lemma_values_absent(kq, vs@, key, d, all.take(preset@.len() + q), preset@.len() as int);
                        assert(nv@ =~= seq![vs@[q as int]]);
                        assert(values_of(kq1, vs@, key) =~= values_of(kq, vs@, key) + seq![vs@[q as int]]);
                    }
                }
                assert(groups_v(g@) =~= e);
            }
        }
        q = q + 1;
    }
    proof {
        assert(all.take(preset@.len() + q) =~= all);
        assert(ks@.take(q as int) =~= ks@);
    }
    g
}

/// Adds a group of `key`, without values, if it has none.
fn add_key<K: KeyEq + Copy, V>(g: &mut Vec<(K, Vec<V>)>, key: K, prefix: Ghost<Seq<K>>)
    requires
        groups_v(old(g)@) == distinct_vals(prefix@).map_values(|x: K| (x, Seq::<V>::empty())),
    ensures
        groups_v(final(g)@) == distinct_vals(prefix@.push(key)).map_values(|x: K| (x, Seq::<V>::empty())),
{
    let ghost d = distinct_vals(prefix@);
    let ghost before = groups_v(g@);
    proof {
        assert(prefix@.push(key).drop_last() =~= prefix@);
        assert(before.len() == g@.len() && before.len() == d.len());
    }
    let p = find_group(g, &key);
    if p == g.len() {
        proof {
            assert(!d.contains(key)) by {
                if d.contains(key) {
                    let j = choose|j: int| 0 <= j < d.len() && d[j] == key;
                    assert(before[j] == (g@[j].0, g@[j].1@));
                }
            }
        }
        let ghost gb = g@;
        let nv: Vec<V> = Vec::new();
        g.push((key, nv));
        proof {
            let e = d.push(key).map_values(|x: K| (x, Seq::<V>::empty()));
            assert forall|j: int| 0 <= j < g@.len() implies #[trigger] groups_v(g@)[j] == e[j] by {
                if j < gb.len() {
                    assert(g@[j] == gb[j]);
                    assert(before[j] == (gb[j].0, gb[j].1@));
                } else {
                    assert(nv@ =~= Seq::<V>::empty());
                }
            }
            assert(groups_v(g@) =~= e);
        }
    } else {
        proof {
            assert(before[p as int] == (g@[p as int].0, g@[p as int].1@));
            assert(d[p as int] == key);
            assert(d.contains(key));
        }
    }
}

/// The values that `distinct_vals` lists are distinct, and they are those of `s`.
pub proof fn lemma_distinct_vals<K>(s: Seq<K>)
    ensures
        forall|i: int, j: int| 0 <= i < j < distinct_vals(s).len() ==> distinct_vals(s)[i] != distinct_vals(s)[j],
        forall|x: K| #[trigger] distinct_vals(s).contains(x) <==> s.contains(x),
    decreases s.len(),
{
    if s.len() > 0 {
        let t = s.drop_last();
        lemma_distinct_vals(t);
        let d = distinct_vals(t);
        assert forall|x: K| #[trigger] distinct_vals(s).contains(x) <==> s.contains(x) by {
            if t.contains(x) {
                let k = choose|k: int| 0 <= k < t.len() && t[k] == x;
                assert(s[k] == x);
            }
            if s.contains(x) {
                let k = choose|k: int| 0 <= k < s.len() && s[k] == x;
                if k < t.len() {
                    assert(t[k] == x);
                }
            }
            if !d.contains(s.last()) {
                if distinct_vals(s).contains(x) {
                    let k = choose|k: int| 0 <= k < distinct_vals(s).len() && distinct_vals(s)[k] == x;
                    if k < d.len() {
                        assert(d[k] == x);
                    }
                }
                if d.contains(x) {
                    let k = choose|k: int| 0 <= k < d.len() && d[k] == x;
                    assert(distinct_vals(s)[k] == x);
                }
                if x == s.last() {
                    assert(distinct_vals(s)[d.len() as int] == x);
                }
            }
        }
        if !d.contains(s.last()) {
            let e = d.push(s.last());
            assert forall|i: int, j: int| 0 <= i < j < e.len() implies e[i] != e[j] by {
                if j == d.len() && e[i] == s.last() {
                    assert(d[i] == s.last());
                }
            }
        }
    }
}

/// A key not yet met has no values.
proof fn lemma_values_absent<K, V>(kq: Seq<K>, vs: Seq<V>, key: K, d: Seq<K>, prefix: Seq<K>, np: int)
    requires
        d == distinct_vals(prefix),
        !d.contains(key),
        0 <= np <= prefix.len(),
        prefix.subrange(np, prefix.len() as int) == kq,
    ensures
        values_of(kq, vs, key) == Seq::<V>::empty(),
    decreases kq.len(),
{
    lemma_distinct_vals(prefix);
    if kq.len() > 0 {
        assert(prefix[prefix.len() - 1] == kq.last());
        assert(prefix.contains(kq.last()));
        assert(kq.last() != key);
        let p2 = prefix.drop_last();
        lemma_distinct_vals(p2);
        if d.contains(key) {
        }
        assert(!distinct_vals(p2).contains(key)) by {
            if distinct_vals(p2).contains(key) {
                assert(p2.contains(key));
                let k = choose|k: int| 0 <= k < p2.len() && p2[k] == key;
                assert(prefix[k] == key);
                assert(prefix.contains(key));
            }
        }
        assert(p2.subrange(np, p2.len() as int) =~= kq.drop_last());
        lemma_values_absent(kq.drop_last(), vs, key, distinct_vals(p2), p2, np);
    }
}

/// The key under which `regroupementcentralite` files a step of counts `c`: `(1, 1)` when its
/// two counts are equal, `c` otherwise.
pub open spec fn centrality_key(c: (usize, usize)) -> (usize, usize) {
    if c.0 == c.1 {
        (1, 1)
    } else {
        c
    }
}

/// The number of steps that the grouping functions read: those with both a value and a step.
pub open spec fn read_len(a: nat, b: nat) -> int {
    if a < b {
        a as int
    } else {
        b as int
    }
}

/// The records of the steps of the plan grouped by their counts (`centrality_key`): one group per
/// key, in the order of first occurrence, with the records of its steps in order.
pub fn regroupementcentralite(centra: &Vec<(usize, usize)>, plan: &Vec<Op>) -> (res: Vec<((usize, usize), Vec<Resume>)>)
    ensures
        groups_v(res@) == grouped(
            Seq::<(usize, usize)>::empty(),
            Seq::new(read_len(centra@.len(), plan@.len()) as nat, |i: int| centrality_key(centra@[i])),
            Seq::new(read_len(centra@.len(), plan@.len()) as nat, |i: int| Resume::spec_new(Some(plan@[i]), i as i32)),
        ),
{
    let k = if centra.len() < plan.len() {
        centra.len()
    } else {
        plan.len()
    };
    let mut ks: Vec<(usize, usize)> = Vec::new();
    let mut vs: Vec<Resume> = Vec::new();
    let mut i: usize = 0;
    while i < k
        invariant
            i <= k,
            k == read_len(centra@.len(), plan@.len()),
            ks@ == Seq::new(i as nat, |j: int| centrality_key(centra@[j])),
            vs@ == Seq::new(i as nat, |j: int| Resume::spec_new(Some(plan@[j]), j as i32)),
        decreases k - i,
    {
        let (a, b) = centra[i];
        let key = if a == b {
            (1usize, 1usize)
        } else {
            (a, b)
        };
        ks.push(key);
        let r = newresume(plan[i], i as i32);
        proof {
            Resume::lemma_spec_new(Some(plan@[i as int]), i as i32);
        }
        vs.push(r);
        assert(ks@ =~= Seq::new((i + 1) as nat, |j: int| centrality_key(centra@[j])));
        assert(vs@ =~= Seq::new((i + 1) as nat, |j: int| Resume::spec_new(Some(plan@[j]), j as i32)));
        i = i + 1;
    }
    let preset: Vec<(usize, usize)> = Vec::new();
    assert(preset@ =~= Seq::<(usize, usize)>::empty());
    group_by(&preset, &ks, &vs)
}

/// The values `centra` grouped by the operator of their step: one group per operator, in the order
/// of first occurrence, with the values of its steps in order.
pub fn regroupementcentraliteop<T: Copy>(centra: &Vec<T>, plan: &Vec<Op>) -> (res: Vec<(Op, Vec<T>)>)
    ensures
        groups_v(res@) == grouped(
            Seq::<Op>::empty(),
            plan@.take(read_len(centra@.len(), plan@.len())),
            centra@.take(read_len(centra@.len(), plan@.len())),
        ),
{
    let k = if centra.len() < plan.len() {
        centra.len()
    } else {
        plan.len()
    };
    let mut ks: Vec<Op> = Vec::new();
    let mut vs: Vec<T> = Vec::new();
    let mut i: usize = 0;
    while i < k
        invariant
            i <= k,
            k == read_len(centra@.len(), plan@.len()),
            ks@ == plan@.take(i as int),
            vs@ == centra@.take(i as int),
        decreases k - i,
    {
        ks.push(plan[i]);
        vs.push(centra[i]);
        assert(ks@ =~= plan@.take(i + 1));
        assert(vs@ =~= centra@.take(i + 1));
        i = i + 1;
    }
    let preset: Vec<Op> = Vec::new();
    assert(preset@ =~= Seq::<Op>::empty());
    group_by(&preset, &ks, &vs)
}

/// The values `centra` grouped by the action of their step: one group per action of the plan, in
/// the order of first occurrence (actions of steps without a value included), with the values of
/// its steps in order.
pub fn regroupementcentraliteaction<T: Copy>(centra: &Vec<T>, plan: &Vec<Op>, ground: &GroundProblem) -> (res: Vec<(
    usize,
    Vec<T>,
)>)
    requires
        named_plan(*ground, plan@),
    ensures
        groups_v(res@) == grouped(
            action_syms(*ground, plan@),
            action_syms(*ground, plan@).take(read_len(centra@.len(), plan@.len())),
            centra@.take(read_len(centra@.len(), plan@.len())),
        ),
{
    let ghost syms = action_syms(*ground, plan@);
    let mut all: Vec<usize> = Vec::new();
    let mut j: usize = 0;
    while j < plan.len()
        invariant
            j <= plan@.len(),
            named_plan(*ground, plan@),
            syms == action_syms(*ground, plan@),
            all@ == syms.take(j as int),
        decreases plan@.len() - j,
    {
        assert(plan@[j as int].id < ground.operators@.len());
        all.push(ground.operators.name(plan[j])[0]);
        assert(all@ =~= syms.take(j + 1));
        j = j + 1;
    }
    assert(syms.take(j as int) =~= syms);
    let k = if centra.len() < plan.len() {
        centra.len()
    } else {
        plan.len()
    };
    let mut ks: Vec<usize> = Vec::new();
    let mut vs: Vec<T> = Vec::new();
    let mut i: usize = 0;
    while i < k
        invariant
            i <= k,
            k == read_len(centra@.len(), plan@.len()),
            all@ == syms,
            syms.len() == plan@.len(),
            ks@ == syms.take(i as int),
            vs@ == centra@.take(i as int),
        decreases k - i,
    {
        ks.push(all[i]);
        vs.push(centra[i]);
        assert(ks@ =~= syms.take(i + 1));
        assert(vs@ =~= centra@.take(i + 1));
        i = i + 1;
    }
    group_by(&all, &ks, &vs)
}

} // verus!
