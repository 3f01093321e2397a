//! Ground supports: which groundings of a transition can support which groundings of
//! another, from the groundings of the transitions and the supports between transitions.
use vstd::prelude::*;
use crate::timelines::groundings::{
    lex_lt,
    IntCst, TransitionId, TransitionGroundingId, Source, SourceGroundingId, TaskId, StateVarGroundingId, Keyed, before,
    strictly_sorted, tgid_key, opt_key, source_key, lemma_lex_asym, lemma_lex_trans, lemma_lex_total, before_exec, push_opt, push_one, merge_dedup_into, dedup_consecutive,
};

verus! {

/// A grounding of a transition, posted for a grounding of its source (which comes first).
pub type SourcedEntry = (Source, TransitionId, TransitionGroundingId, SourceGroundingId);

/// A ground support, seen from the supporting ground transition.
pub type OutEntry = (TransitionId, TransitionGroundingId, (TransitionId, TransitionGroundingId));

/// A ground support, seen from the supported ground transition; `None` when nothing supports it.
pub type InEntry = (TransitionId, TransitionGroundingId, Option<(TransitionId, TransitionGroundingId)>);

/// A transition grounding with its value and operand swapped: (state variable, operand, value).
pub type InvertedGrounding = (StateVarGroundingId, Option<IntCst>, Option<IntCst>);

/// Equal keys of transition groundings come from equal groundings.
proof fn lemma_tgid_key(a: TransitionGroundingId, b: TransitionGroundingId)
    ensures
        tgid_key(a).len() == 5,
        tgid_key(a) == tgid_key(b) ==> a == b,
{
    if tgid_key(a) == tgid_key(b) {
        let ka = tgid_key(a);
        let kb = tgid_key(b);
        assert(ka[0] == kb[0] && ka[1] == kb[1] && ka[2] == kb[2] && ka[3] == kb[3] && ka[4] == kb[4]);
    }
}

fn push_tgid(v: &mut Vec<i128>, g: TransitionGroundingId)
    ensures
        final(v)@.map_values(|x: i128| x as int) == old(v)@.map_values(|x: i128| x as int) + tgid_key(g),
{
    let ghost v0 = v@.map_values(|x: i128| x as int);
    push_one(v, g.state_var_grounding_id);
    push_opt(v, g.val_assignment);
    push_opt(v, g.op_assignment);
    assert(v@.map_values(|x: i128| x as int) =~= v0 + tgid_key(g));
}

impl Keyed for (Source, TransitionId, TransitionGroundingId, SourceGroundingId) {
    open spec fn key(self) -> Seq<int> {
        source_key(self.0) + seq![self.1 as int] + tgid_key(self.2) + seq![self.3 as int]
    }

    open spec fn key_len() -> nat {
        9
    }

    proof fn lemma_key(a: Self, b: Self) {
        lemma_tgid_key(a.2, b.2);
        if a.key() == b.key() {
            assert(a.key().subrange(3, 8) =~= tgid_key(a.2));
            assert(b.key().subrange(3, 8) =~= tgid_key(b.2));
            assert(a.key()[0] == b.key()[0] && a.key()[1] == b.key()[1]);
            assert(a.key()[2] == b.key()[2] && a.key()[8] == b.key()[8]);
            assert(a.0 == b.0);
        }
    }

    fn key_exec(&self) -> (res: Vec<i128>) {
        let mut v: Vec<i128> = Vec::new();
        assert(v@.map_values(|x: i128| x as int) =~= Seq::<int>::empty());
        match self.0 {
            Some(t) => {
                v.push(1);
                push_one(&mut v, t.id);
            },
            None => {
                v.push(0);
                v.push(0);
            },
        }
        push_one(&mut v, self.1);
        push_tgid(&mut v, self.2);
        push_one(&mut v, self.3);
        assert(v@.map_values(|x: i128| x as int) =~= self.key());
        v
    }

    fn same(&self, other: &Self) -> (res: bool) {
        self.0 == other.0 && self.1 == other.1 && self.2 == other.2 && self.3 == other.3
    }
}

impl Keyed for (TransitionId, TransitionGroundingId, (TransitionId, TransitionGroundingId)) {
    open spec fn key(self) -> Seq<int> {
        seq![self.0 as int] + tgid_key(self.1) + seq![self.2.0 as int] + tgid_key(self.2.1)
    }

    open spec fn key_len() -> nat {
        12
    }

    proof fn lemma_key(a: Self, b: Self) {
        lemma_tgid_key(a.1, b.1);
        lemma_tgid_key(a.2.1, b.2.1);
        if a.key() == b.key() {
            assert(a.key().subrange(1, 6) =~= tgid_key(a.1));
            assert(b.key().subrange(1, 6) =~= tgid_key(b.1));
            assert(a.key().subrange(7, 12) =~= tgid_key(a.2.1));
            assert(b.key().subrange(7, 12) =~= tgid_key(b.2.1));
            assert(a.key()[0] == b.key()[0] && a.key()[6] == b.key()[6]);
        }
    }

    fn key_exec(&self) -> (res: Vec<i128>) {
        let mut v: Vec<i128> = Vec::new();
        assert(v@.map_values(|x: i128| x as int) =~= Seq::<int>::empty());
        push_one(&mut v, self.0);
        push_tgid(&mut v, self.1);
        push_one(&mut v, self.2.0);
        push_tgid(&mut v, self.2.1);
        assert(v@.map_values(|x: i128| x as int) =~= self.key());
        v
    }

    fn same(&self, other: &Self) -> (res: bool) {
        self.0 == other.0 && self.1 == other.1 && self.2.0 == other.2.0 && self.2.1 == other.2.1
    }
}

/// Key of an optional supporting ground transition: `None` first.
pub open spec fn opt_support_key(o: Option<(TransitionId, TransitionGroundingId)>) -> Seq<int> {
    match o {
        Some(p) => seq![1int, p.0 as int] + tgid_key(p.1),
        None => seq![0int, 0int, 0int, 0int, 0int, 0int, 0int],
    }
}

impl Keyed for (TransitionId, TransitionGroundingId, Option<(TransitionId, TransitionGroundingId)>) {
    open spec fn key(self) -> Seq<int> {
        seq![self.0 as int] + tgid_key(self.1) + opt_support_key(self.2)
    }

    open spec fn key_len() -> nat {
        13
    }

    proof fn lemma_key(a: Self, b: Self) {
        lemma_tgid_key(a.1, b.1);
        match (a.2, b.2) {
            (Some(pa), Some(pb)) => {
                lemma_tgid_key(pa.1, pb.1);
            },
            (Some(pa), None) => {
                lemma_tgid_key(pa.1, pa.1);
            },
            (None, Some(pb)) => {
                lemma_tgid_key(pb.1, pb.1);
            },
            _ => {},
        }
        if a.key() == b.key() {
            assert(a.key().subrange(1, 6) =~= tgid_key(a.1));
            assert(b.key().subrange(1, 6) =~= tgid_key(b.1));
            assert(a.key().subrange(6, 13) =~= opt_support_key(a.2));
            assert(b.key().subrange(6, 13) =~= opt_support_key(b.2));
            assert(a.key()[0] == b.key()[0]);
            let ka = opt_support_key(a.2);
            let kb = opt_support_key(b.2);
            assert(ka[0] == kb[0]);
            if let (Some(pa), Some(pb)) = (a.2, b.2) {
                assert(ka[1] == kb[1]);
                assert(ka.subrange(2, 7) =~= tgid_key(pa.1));
                assert(kb.subrange(2, 7) =~= tgid_key(pb.1));
            }
        }
    }

    fn key_exec(&self) -> (res: Vec<i128>) {
        let mut v: Vec<i128> = Vec::new();
        assert(v@.map_values(|x: i128| x as int) =~= Seq::<int>::empty());
        push_one(&mut v, self.0);
        push_tgid(&mut v, self.1);
        let ghost v1 = v@.map_values(|x: i128| x as int);
        match self.2 {
            Some(p) => {
                v.push(1);
                push_one(&mut v, p.0);
                push_tgid(&mut v, p.1);
            },
            None => {
                v.push(0);
                v.push(0);
                v.push(0);
                v.push(0);
                v.push(0);
                v.push(0);
                v.push(0);
            },
        }
        assert(v@.map_values(|x: i128| x as int) =~= self.key());
        v
    }

    fn same(&self, other: &Self) -> (res: bool) {
        self.0 == other.0 && self.1 == other.1 && match (self.2, other.2) {
            (Some(p), Some(q)) => p.0 == q.0 && p.1 == q.1,
            (None, None) => true,
            _ => false,
        }
    }
}

impl Keyed for (StateVarGroundingId, Option<IntCst>, Option<IntCst>) {
    open spec fn key(self) -> Seq<int> {
        seq![self.0 as int] + opt_key(self.1) + opt_key(self.2)
    }

    open spec fn key_len() -> nat {
        5
    }

    proof fn lemma_key(a: Self, b: Self) {
        if a.key() == b.key() {
            let ka = a.key();
            let kb = b.key();
            assert(ka[0] == kb[0] && ka[1] == kb[1] && ka[2] == kb[2] && ka[3] == kb[3] && ka[4] == kb[4]);
        }
    }

    fn key_exec(&self) -> (res: Vec<i128>) {
        let mut v: Vec<i128> = Vec::new();
        assert(v@.map_values(|x: i128| x as int) =~= Seq::<int>::empty());
        push_one(&mut v, self.0);
        push_opt(&mut v, self.1);
        push_opt(&mut v, self.2);
        assert(v@.map_values(|x: i128| x as int) =~= self.key());
        v
    }

    fn same(&self, other: &Self) -> (res: bool) {
        self.0 == other.0 && self.1 == other.1 && self.2 == other.2
    }
}

/// The groundings of transition `t` among `entries`, in order (with repeats).
pub open spec fn tgids_raw(entries: Seq<SourcedEntry>, t: TransitionId) -> Seq<TransitionGroundingId>
    decreases entries.len(),
{
    if entries.len() == 0 {
        seq![]
    } else if entries.last().1 == t {
        tgids_raw(entries.drop_last(), t).push(entries.last().2)
    } else {
        tgids_raw(entries.drop_last(), t)
    }
}

/// The groundings of transition `t` among `entries`, in order, each one once.
pub open spec fn groundings_in(entries: Seq<SourcedEntry>, t: TransitionId) -> Seq<TransitionGroundingId> {
    dedup_consecutive(tgids_raw(entries, t))
}

/// The ground transitions among `entries`, in order, without consecutive repeats.
pub open spec fn unsourced_in(entries: Seq<SourcedEntry>) -> Seq<(TransitionId, TransitionGroundingId)> {
    dedup_consecutive(entries.map_values(|e: SourcedEntry| (e.1, e.2)))
}

/// Lexicographic order is kept under a common prefix (and any suffixes).
pub proof fn lemma_lex_embed(pre: Seq<int>, a: Seq<int>, b: Seq<int>, qa: Seq<int>, qb: Seq<int>)
    requires
        a.len() == b.len(),
        lex_lt(a, b),
    ensures
        lex_lt(pre + a + qa, pre + b + qb),
{
    let i = choose|i: int| 0 <= i < a.len() && i < b.len() && a.subrange(0, i) == b.subrange(0, i) && #[trigger] a[i] < b[i];
    let x = pre + a + qa;
    let y = pre + b + qb;
    let j = pre.len() + i;
    assert forall|k: int| 0 <= k < j implies x[k] == y[k] by {
        if k >= pre.len() {
            assert(a.subrange(0, i)[k - pre.len()] == b.subrange(0, i)[k - pre.len()]);
        }
    }
    assert(x.subrange(0, j) =~= y.subrange(0, j));
    assert(x[j] == a[i] && y[j] == b[i]);
}

/// Groundings of transitions: the source of each transition, and the ground transitions
/// posted for groundings of their sources, sorted by source, then transition, grounding and
/// source grounding.
pub struct TransitionsGroundingsInfo {
    sources_of: Vec<Option<Source>>,
    entries: Vec<SourcedEntry>,
}

impl TransitionsGroundingsInfo {
    /// The source of transition `t`, once a grounding of it was posted.
    pub closed spec fn source_of(&self, t: TransitionId) -> Option<Source> {
        if t < self.sources_of@.len() {
            self.sources_of@[t as int]
        } else {
            None
        }
    }

    /// The posted ground transitions, each with its source and source grounding.
    pub closed spec fn entries(&self) -> Seq<SourcedEntry> {
        self.entries@
    }

    /// Entries are strictly sorted, and each one is posted for the source of its transition.
    pub open spec fn wf(&self) -> bool {
        &&& strictly_sorted(self.entries())
        &&& forall|k: int| 0 <= k < self.entries().len() ==> self.source_of(#[trigger] self.entries()[k].1) == Some(self.entries()[k].0)
    }

    /// Nothing posted.
    pub fn default() -> (res: TransitionsGroundingsInfo)
        ensures
            res.wf(),
            res.entries().len() == 0,
            forall|t: TransitionId| res.source_of(t) is None,
    {
        TransitionsGroundingsInfo { sources_of: Vec::new(), entries: Vec::new() }
    }

    /// Records the grounding `trans_grounding_id` of transition `trans_id`, posted for the
    /// grounding `source_grounding_id` of `source`. A transition has a single source, and an
    /// entry is posted once.
    pub fn post_ground_transition(
        &mut self,
        trans_id: TransitionId,
        trans_grounding_id: TransitionGroundingId,
        source: Source,
        source_grounding_id: SourceGroundingId,
    )
        requires
            old(self).wf(),
            old(self).source_of(trans_id) is None || old(self).source_of(trans_id) == Some(source),
            !old(self).entries().contains((source, trans_id, trans_grounding_id, source_grounding_id)),
        ensures
            final(self).wf(),
            forall|t: TransitionId| #[trigger] final(self).source_of(t) == if t == trans_id {
                Some(source)
            } else {
                old(self).source_of(t)
            },
            forall|e: SourcedEntry| #[trigger] final(self).entries().contains(e) <==> (old(self).entries().contains(e)
                || e == (source, trans_id, trans_grounding_id, source_grounding_id)),
    {
        let ghost s0 = self.sources_of@;
        let ghost e0 = self.entries@;
        while self.sources_of.len() <= trans_id
            invariant
                self.entries@ == e0,
                self.sources_of@.len() >= s0.len(),
                forall|u: int| 0 <= u < s0.len() ==> #[trigger] self.sources_of@[u] == s0[u],
                forall|u: int| s0.len() <= u < self.sources_of@.len() ==> #[trigger] self.sources_of@[u] is None,
            decreases trans_id + 1 - self.sources_of@.len(),
        {
            self.sources_of.push(None);
        }
        self.sources_of.set(trans_id, Some(source));
        let ghost s1 = self.sources_of@;
        let mut pending: Vec<SourcedEntry> = Vec::new();
        pending.push((source, trans_id, trans_grounding_id, source_grounding_id));
        merge_dedup_into(&mut pending, &mut self.entries);
        proof {
            assert(pending@.len() == 0);
            assert forall|t: TransitionId| #[trigger] self.source_of(t) == if t == trans_id {
                Some(source)
            } else {
                old(self).source_of(t)
            } by {
                if t != trans_id && t < s1.len() {
                    assert(s1[t as int] == self.sources_of@[t as int]);
                }
            }
            assert forall|e: SourcedEntry| #[trigger] self.entries().contains(e) <==> (e0.contains(e)
                || e == (source, trans_id, trans_grounding_id, source_grounding_id)) by {
                let p = seq![(source, trans_id, trans_grounding_id, source_grounding_id)];
                if p.contains(e) {
                    let w = choose|w: int| 0 <= w < p.len() && p[w] == e;
                    assert(w == 0);
                }
                if e == (source, trans_id, trans_grounding_id, source_grounding_id) {
                    assert(p[0] == e);
                }
            }
            assert forall|k: int| 0 <= k < self.entries().len() implies self.source_of(#[trigger] self.entries()[k].1) == Some(self.entries()[k].0) by {
                let e = self.entries()[k];
                assert(self.entries().contains(e));
                if e0.contains(e) {
                    let w = choose|w: int| 0 <= w < e0.len() && e0[w] == e;
                    assert(old(self).source_of(e0[w].1) == Some(e0[w].0));
                }
            }
        }
    }

    /// Entries are kept sorted as they are posted: there is nothing left to sort.
    pub fn sort_for_all(&mut self)
        requires
            old(self).wf(),
        ensures
            final(self).wf(),
            final(self).entries() == old(self).entries(),
            forall|t: TransitionId| #[trigger] final(self).source_of(t) == old(self).source_of(t),
    {
    }

    /// All entries, grouped by source (the empty source first, then tasks by index).
    pub fn iter_all_sourced(&self) -> (res: &[SourcedEntry])
        ensures
            res@ == self.entries(),
    {
        self.entries.as_slice()
    }

    /// The ground transitions of all entries, in order, without consecutive repeats.
    pub fn iter_all_unsourced(&self) -> (res: Vec<(TransitionId, TransitionGroundingId)>)
        ensures
            res@ == unsourced_in(self.entries()),
    {
        let ghost es = self.entries();
        let ghost all = es.map_values(|e: SourcedEntry| (e.1, e.2));
        let mut res: Vec<(TransitionId, TransitionGroundingId)> = Vec::new();
        let mut i: usize = 0;
        while i < self.entries.len()
            invariant
                i <= es.len(),
                es == self.entries@,
                all == es.map_values(|e: SourcedEntry| (e.1, e.2)),
                res@ == dedup_consecutive(all.subrange(0, i as int)),
            decreases es.len() - i,
        {
            let e = self.entries[i];
            proof {
                assert(all.subrange(0, i + 1).drop_last() =~= all.subrange(0, i as int));
                assert(all.subrange(0, i + 1).last() == (e.1, e.2));
            }
            if i == 0 {
                res.push((e.1, e.2));
            } else {
                let p = self.entries[i - 1];
                proof {
                    assert(all.subrange(0, i as int).last() == (p.1, p.2));
                }
                if !(p.1 == e.1 && p.2 == e.2) {
                    res.push((e.1, e.2));
                }
            }
            i = i + 1;
        }
        assert(all.subrange(0, i as int) =~= all);
        res
    }

    /// The groundings of transition `trans_id`, in order, each one once (strictly sorted when
    /// the entries are well formed).
    pub fn groundings_of(&self, trans_id: TransitionId) -> (res: Vec<TransitionGroundingId>)
        ensures
            res@ == groundings_in(self.entries(), trans_id),
            self.wf() ==> strictly_sorted(res@),
    {
        let ghost es = self.entries();
        let mut res: Vec<TransitionGroundingId> = Vec::new();
        let mut prev: Option<TransitionGroundingId> = None;
        let mut i: usize = 0;
        while i < self.entries.len()
            invariant
                i <= es.len(),
                es == self.entries@,
                es == self.entries(),
                res@ == dedup_consecutive(tgids_raw(es.subrange(0, i as int), trans_id)),
                prev == if tgids_raw(es.subrange(0, i as int), trans_id).len() > 0 {
                    Some(tgids_raw(es.subrange(0, i as int), trans_id).last())
                } else {
                    None::<TransitionGroundingId>
                },
                self.wf() ==> strictly_sorted(res@),
                prev is None ==> res@.len() == 0,
                res@.len() > 0 ==> prev == Some(res@.last()),
                prev matches Some(pg) ==> exists|k: int| #![trigger es[k]] 0 <= k < i && es[k].1 == trans_id && es[k].2 == pg,
            decreases es.len() - i,
        {
            let e = self.entries[i];
            let ghost raw = tgids_raw(es.subrange(0, i as int), trans_id);
            let ghost r0 = res@;
            let ghost prev0 = prev;
            proof {
                assert(es.subrange(0, i + 1).drop_last() =~= es.subrange(0, i as int));
                assert(es.subrange(0, i + 1).last() == e);
            }
            if e.1 == trans_id {
                proof {
                    assert(raw.push(e.2).drop_last() =~= raw);
                }
                let repeat = match prev {
                    Some(p) => p == e.2,
                    None => false,
                };
                if !repeat {
                    res.push(e.2);
                    proof {
                        if self.wf() {
                            if let Some(pg) = prev0 {
                                let k = choose|k: int| #![trigger es[k]] 0 <= k < i && es[k].1 == trans_id && es[k].2 == pg;
                                lemma_before_same_transition(self, k, i as int);
                                assert(before(pg, e.2));
                                assert forall|a: int, b: int| 0 <= a < b < res@.len() implies before(#[trigger] res@[a], #[trigger] res@[b]) by {
                                    if b == res@.len() - 1 {
                                        if a < r0.len() - 1 {
                                            assert(before(r0[a], r0[r0.len() - 1]));
                                            lemma_tgid_key(r0[a], pg);
                                            lemma_tgid_key(pg, e.2);
                                            lemma_tgid_key(e.2, r0[a]);
                                            lemma_lex_trans(tgid_key(r0[a]), tgid_key(pg), tgid_key(e.2));
                                        }
                                    } else {
                                        assert(res@[a] == r0[a] && res@[b] == r0[b]);
                                    }
                                }
                            }
                        }
                    }
                }
                prev = Some(e.2);
                proof {
                    assert(es[i as int].1 == trans_id && es[i as int].2 == e.2);
                }
            }
            i = i + 1;
        }
        assert(es.subrange(0, i as int) =~= es);
        res
    }

    /// The source of transition `trans_id`, if a grounding of it was posted.
    fn get_source(&self, trans_id: TransitionId) -> (res: Option<Source>)
        ensures
            res == self.source_of(trans_id),
    {
        if trans_id < self.sources_of.len() {
            self.sources_of[trans_id]
        } else {
            None
        }
    }
}

/// Of two entries of a same transition, the earlier one has a grounding that comes before or
/// equals that of the later one.
proof fn lemma_before_same_transition(tg: &TransitionsGroundingsInfo, k: int, i: int)
    requires
        tg.wf(),
        0 <= k < i < tg.entries().len(),
        tg.entries()[k].1 == tg.entries()[i].1,
        tg.entries()[k].2 != tg.entries()[i].2,
    ensures
        before(tg.entries()[k].2, tg.entries()[i].2),
{
    let es = tg.entries();
    let ek = es[k];
    let ei = es[i];
    assert(tg.source_of(es[k].1) == Some(es[k].0));
    assert(tg.source_of(es[i].1) == Some(es[i].0));
    assert(ek.0 == ei.0);
    assert(before(ek, ei));
    lemma_tgid_key(ek.2, ei.2);
    lemma_tgid_key(ei.2, ek.2);
    lemma_lex_total(tgid_key(ek.2), tgid_key(ei.2));
    if lex_lt(tgid_key(ei.2), tgid_key(ek.2)) {
        let pre = source_key(ek.0) + seq![ek.1 as int];
        lemma_lex_embed(pre, tgid_key(ei.2), tgid_key(ek.2), seq![ei.3 as int], seq![ek.3 as int]);
        assert(ei.key() == pre + tgid_key(ei.2) + seq![ei.3 as int]);
        assert(ek.key() == pre + tgid_key(ek.2) + seq![ek.3 as int]);
        <SourcedEntry as Keyed>::lemma_key(ek, ei);
        <SourcedEntry as Keyed>::lemma_key(ei, ek);
        lemma_lex_asym(ek.key(), ei.key());
    }
}

/// Stands for the solver literal that makes a support active.
pub type LitId = u64;

/// Supports between transitions, as (supporting, supported) pairs sorted in both directions.
pub struct SupportsSorted {
    pub sorted_out: Vec<((TransitionId, TransitionId), Option<LitId>)>,
    pub sorted_in: Vec<(TransitionId, TransitionId)>,
}

impl SupportsSorted {
    pub fn sorted_out(&self) -> (res: &[((TransitionId, TransitionId), Option<LitId>)])
        ensures
            res@ == self.sorted_out@,
    {
        self.sorted_out.as_slice()
    }

    pub fn sorted_in(&self) -> (res: &[(TransitionId, TransitionId)])
        ensures
            res@ == self.sorted_in@,
    {
        self.sorted_in.as_slice()
    }
}

/// A support between two transitions with, when one exists, a pair of compatible groundings
/// (supporting, supported).
pub type SupportEntry = (TransitionId, TransitionId, Option<(TransitionGroundingId, TransitionGroundingId)>);

/// Two strictly sorted sequences with the same elements are equal.
pub proof fn lemma_strictly_sorted_unique<T: Keyed>(a: Seq<T>, b: Seq<T>)
    requires
        strictly_sorted(a),
        strictly_sorted(b),
        forall|e: T| a.contains(e) <==> b.contains(e),
    ensures
        a == b,
    decreases a.len(),
{
    if a.len() == 0 {
        if b.len() > 0 {
            assert(b.contains(b[0]));
        }
        assert(a =~= b);
    } else {
        assert(a.contains(a[0]));
        assert(b.len() > 0);
        assert(b.contains(b[0]));
        let j = choose|j: int| 0 <= j < b.len() && b[j] == a[0];
        let k = choose|k: int| 0 <= k < a.len() && a[k] == b[0];
        T::lemma_key(a[0], b[0]);
        T::lemma_key(b[0], a[0]);
        if j > 0 {
            assert(before(b[0], b[j]));
            if k > 0 {
                assert(before(a[0], a[k]));
                lemma_lex_asym(a[0].key(), a[k].key());
            } else {
                lemma_lex_asym(b[0].key(), b[j].key());
            }
        }
        assert(a[0] == b[0]);
        let a1 = a.drop_first();
        let b1 = b.drop_first();
        assert forall|e: T| a1.contains(e) <==> b1.contains(e) by {
            if a1.contains(e) {
                let w = choose|w: int| 0 <= w < a1.len() && a1[w] == e;
                assert(a[w + 1] == e);
                assert(a.contains(e));
                T::lemma_key(a[0], e);
                T::lemma_key(e, a[0]);
                assert(before(a[0], a[w + 1]));
                lemma_lex_asym(a[0].key(), e.key());
                assert(b.contains(e));
                let v = choose|v: int| 0 <= v < b.len() && b[v] == e;
                assert(v != 0);
                assert(b1[v - 1] == e);
            }
            if b1.contains(e) {
                let w = choose|w: int| 0 <= w < b1.len() && b1[w] == e;
                assert(b[w + 1] == e);
                assert(b.contains(e));
                T::lemma_key(b[0], e);
                T::lemma_key(e, b[0]);
                assert(before(b[0], b[w + 1]));
                lemma_lex_asym(b[0].key(), e.key());
                assert(a.contains(e));
                let v = choose|v: int| 0 <= v < a.len() && a[v] == e;
                assert(v != 0);
                assert(a1[v - 1] == e);
            }
        }
        assert forall|x: int, y: int| 0 <= x < y < a1.len() implies before(#[trigger] a1[x], #[trigger] a1[y]) by {
            assert(a1[x] == a[x + 1] && a1[y] == a[y + 1]);
        }
        assert forall|x: int, y: int| 0 <= x < y < b1.len() implies before(#[trigger] b1[x], #[trigger] b1[y]) by {
            assert(b1[x] == b[x + 1] && b1[y] == b[y + 1]);
        }
        lemma_strictly_sorted_unique(a1, b1);
        assert(a =~= seq![a[0]] + a1);
        assert(b =~= seq![b[0]] + b1);
    }
}

/// A grounding with its value and operand swapped.
pub open spec fn invert(g: TransitionGroundingId) -> InvertedGrounding {
    (g.state_var_grounding_id, g.op_assignment, g.val_assignment)
}

/// The grounding that `x` is the inversion of.
pub open spec fn uninvert(x: InvertedGrounding) -> TransitionGroundingId {
    TransitionGroundingId { state_var_grounding_id: x.0, val_assignment: x.2, op_assignment: x.1 }
}

/// The inversions of `ogs`, strictly sorted.
pub open spec fn sorted_inversion(ogs: Seq<TransitionGroundingId>) -> Seq<InvertedGrounding> {
    choose|s: Seq<InvertedGrounding>| strictly_sorted(s) && forall|e: InvertedGrounding| #[trigger] s.contains(e) <==> ogs.map_values(|g: TransitionGroundingId| invert(g)).contains(e)
}

/// No element occurs twice.
pub open spec fn no_dups<A>(s: Seq<A>) -> bool {
    forall|a: int, b: int| 0 <= a < b < s.len() ==> s[a] != s[b]
}

/// A strictly sorted sequence has no element twice.
pub proof fn lemma_strictly_sorted_no_dups<T: Keyed>(s: Seq<T>)
    requires
        strictly_sorted(s),
    ensures
        no_dups(s),
{
    assert forall|a: int, b: int| 0 <= a < b < s.len() implies s[a] != s[b] by {
        assert(before(s[a], s[b]));
        T::lemma_key(s[a], s[b]);
        T::lemma_key(s[b], s[a]);
        lemma_lex_asym(s[a].key(), s[b].key());
    }
}

/// `(og, ig)` for each `ig` of `igs` on the state variable of `og`, in the order of `igs`.
pub open spec fn eff_matches(og: TransitionGroundingId, igs: Seq<TransitionGroundingId>) -> Seq<(TransitionGroundingId, TransitionGroundingId)>
    decreases igs.len(),
{
    if igs.len() == 0 {
        seq![]
    } else if igs.last().state_var_grounding_id == og.state_var_grounding_id {
        eff_matches(og, igs.drop_last()).push((og, igs.last()))
    } else {
        eff_matches(og, igs.drop_last())
    }
}

/// The pairs of groundings on the same state variable, by supporting grounding first.
pub open spec fn eff_pairs(ogs: Seq<TransitionGroundingId>, igs: Seq<TransitionGroundingId>) -> Seq<(TransitionGroundingId, TransitionGroundingId)>
    decreases ogs.len(),
{
    if ogs.len() == 0 {
        seq![]
    } else {
        eff_pairs(ogs.drop_last(), igs) + eff_matches(ogs.last(), igs)
    }
}

/// The supporting grounding (inverted as `x`) leaves its state variable with the value that `ig` reads.
pub open spec fn feeds(x: InvertedGrounding, ig: TransitionGroundingId) -> bool {
    &&& ig.state_var_grounding_id == x.0
    &&& x.1 is Some
    &&& ig.val_assignment == x.1
}

/// `(uninvert(x), ig)` for each `ig` of `igs` that `x` feeds, in the order of `igs`.
pub open spec fn val_matches(x: InvertedGrounding, igs: Seq<TransitionGroundingId>) -> Seq<(TransitionGroundingId, TransitionGroundingId)>
    decreases igs.len(),
{
    if igs.len() == 0 {
        seq![]
    } else if feeds(x, igs.last()) {
        val_matches(x, igs.drop_last()).push((uninvert(x), igs.last()))
    } else {
        val_matches(x, igs.drop_last())
    }
}

/// The pairs of groundings where the supporting one feeds the supported one, by inverted
/// supporting grounding first.
pub open spec fn val_pairs(xs: Seq<InvertedGrounding>, igs: Seq<TransitionGroundingId>) -> Seq<(TransitionGroundingId, TransitionGroundingId)>
    decreases xs.len(),
{
    if xs.len() == 0 {
        seq![]
    } else {
        val_pairs(xs.drop_last(), igs) + val_matches(xs.last(), igs)
    }
}

/// The compatible grounding pairs of a support from transition `o` to transition `i`. A
/// supported pure effect (told by its first grounding) takes any grounding on its state
/// variable; otherwise the supporting operand must be the supported value.
#[verifier::opaque]
pub open spec fn ground_pairs(es: Seq<SourcedEntry>, o: TransitionId, i: TransitionId) -> Seq<(TransitionGroundingId, TransitionGroundingId)> {
    let ogs = groundings_in(es, o);
    let igs = groundings_in(es, i);
    if igs.len() > 0 && igs[0].op_assignment is Some && igs[0].val_assignment is None {
        eff_pairs(ogs, igs)
    } else {
        val_pairs(sorted_inversion(ogs), igs)
    }
}

/// The entries of a support: one per compatible pair, or a single one without a pair.
pub open spec fn support_group(es: Seq<SourcedEntry>, o: TransitionId, i: TransitionId) -> Seq<SupportEntry> {
    let ps = ground_pairs(es, o, i);
    if ps.len() == 0 {
        seq![(o, i, None)]
    } else {
        ps.map_values(|p: (TransitionGroundingId, TransitionGroundingId)| (o, i, Some(p)))
    }
}

/// The entries of the supports `sup`, in order.
pub open spec fn support_entries(es: Seq<SourcedEntry>, sup: Seq<(TransitionId, TransitionId)>) -> Seq<SupportEntry>
    decreases sup.len(),
{
    if sup.len() == 0 {
        seq![]
    } else {
        support_entries(es, sup.drop_last()) + support_group(es, sup.last().0, sup.last().1)
    }
}

/// Some entry gives a supporting grounding to grounding `g` of transition `t`.
pub open spec fn supported(entries: Seq<SupportEntry>, t: TransitionId, g: TransitionGroundingId) -> bool {
    exists|m: int| #![trigger entries[m]] 0 <= m < entries.len() && entries[m].1 == t && (entries[m].2 matches Some(p) && p.1 == g)
}

/// Grounding `g` of transition `t` was posted and needs a support: it is not a pure effect
/// of the empty source (an initial value).
pub open spec fn awaits_support(tg: TransitionsGroundingsInfo, t: TransitionId, g: TransitionGroundingId) -> bool {
    &&& exists|k: int| #![trigger tg.entries()[k]] 0 <= k < tg.entries().len() && tg.entries()[k].1 == t && tg.entries()[k].2 == g
    &&& (!(g.op_assignment is Some && g.val_assignment is None) || tg.source_of(t) matches Some(Some(_)))
}

fn inverted_sorted(ogs: &Vec<TransitionGroundingId>) -> (res: Vec<InvertedGrounding>)
    ensures
        res@ == sorted_inversion(ogs@),
        strictly_sorted(res@),
{
    let ghost inv = ogs@.map_values(|g: TransitionGroundingId| invert(g));
    let mut pending: Vec<InvertedGrounding> = Vec::new();
    let mut a: usize = 0;
    while a < ogs.len()
        invariant
            a <= ogs@.len(),
            inv == ogs@.map_values(|g: TransitionGroundingId| invert(g)),
            pending@ == inv.subrange(0, a as int),
        decreases ogs@.len() - a,
    {
        let g = ogs[a];
        pending.push((g.state_var_grounding_id, g.op_assignment, g.val_assignment));
        assert(pending@ =~= inv.subrange(0, a + 1));
        a = a + 1;
    }
    assert(pending@ =~= inv);
    let mut merged: Vec<InvertedGrounding> = Vec::new();
    merge_dedup_into(&mut pending, &mut merged);
    proof {
        assert forall|e: InvertedGrounding| #[trigger] merged@.contains(e) <==> inv.contains(e) by {}
        let c = sorted_inversion(ogs@);
        assert(strictly_sorted(c) && forall|e: InvertedGrounding| #[trigger] c.contains(e) <==> inv.contains(e));
        lemma_strictly_sorted_unique(c, merged@);
    }
    merged
}

fn eff_pairs_exec(ogs: &Vec<TransitionGroundingId>, igs: &Vec<TransitionGroundingId>) -> (res: Vec<(TransitionGroundingId, TransitionGroundingId)>)
    ensures
        res@ == eff_pairs(ogs@, igs@),
        no_dups(ogs@) && no_dups(igs@) ==> no_dups(res@),
{
    let mut res: Vec<(TransitionGroundingId, TransitionGroundingId)> = Vec::new();
    let ghost mut idx: Seq<(int, int)> = Seq::empty();
    let mut a: usize = 0;
    while a < ogs.len()
        invariant
            a <= ogs@.len(),
            res@ == eff_pairs(ogs@.subrange(0, a as int), igs@),
            idx.len() == res@.len(),
            forall|m: int| 0 <= m < idx.len() ==> 0 <= (#[trigger] idx[m]).0 < a && 0 <= idx[m].1 < igs@.len()
                && res@[m] == (ogs@[idx[m].0], igs@[idx[m].1]),
            forall|m1: int, m2: int| 0 <= m1 < m2 < idx.len() ==> (#[trigger] idx[m1]).0 < (#[trigger] idx[m2]).0
                || (idx[m1].0 == idx[m2].0 && idx[m1].1 < idx[m2].1),
        decreases ogs@.len() - a,
    {
        let og = ogs[a];
        let ghost r0 = res@;
        let mut b: usize = 0;
        while b < igs.len()
            invariant
                b <= igs@.len(),
                a < ogs@.len(),
                og == ogs@[a as int],
                res@ == r0 + eff_matches(og, igs@.subrange(0, b as int)),
                idx.len() == res@.len(),
                forall|m: int| 0 <= m < idx.len() ==> 0 <= (#[trigger] idx[m]).0 <= a && 0 <= idx[m].1 < igs@.len()
                    && res@[m] == (ogs@[idx[m].0], igs@[idx[m].1]) && (idx[m].0 < a || idx[m].1 < b),
                forall|m1: int, m2: int| 0 <= m1 < m2 < idx.len() ==> (#[trigger] idx[m1]).0 < (#[trigger] idx[m2]).0
                    || (idx[m1].0 == idx[m2].0 && idx[m1].1 < idx[m2].1),
            decreases igs@.len() - b,
        {
            let ig = igs[b];
            proof {
                assert(igs@.subrange(0, b + 1).drop_last() =~= igs@.subrange(0, b as int));
                assert(igs@.subrange(0, b + 1).last() == ig);
            }
            if ig.state_var_grounding_id == og.state_var_grounding_id {
                res.push((og, ig));
                proof {
                    idx = idx.push((a as int, b as int));
                }
                assert(res@ =~= r0 + eff_matches(og, igs@.subrange(0, b + 1)));
            }
            b = b + 1;
        }
        proof {
            assert(igs@.subrange(0, b as int) =~= igs@);
            assert(ogs@.subrange(0, a + 1).drop_last() =~= ogs@.subrange(0, a as int));
            assert(ogs@.subrange(0, a + 1).last() == og);
        }
        a = a + 1;
    }
    assert(ogs@.subrange(0, a as int) =~= ogs@);
    proof {
        if no_dups(ogs@) && no_dups(igs@) {
            assert forall|m1: int, m2: int| 0 <= m1 < m2 < res@.len() implies res@[m1] != res@[m2] by {
                assert(idx[m1].0 < idx[m2].0 || (idx[m1].0 == idx[m2].0 && idx[m1].1 < idx[m2].1));
            }
        }
    }
    res
}

fn val_pairs_exec(xs: &Vec<InvertedGrounding>, igs: &Vec<TransitionGroundingId>) -> (res: Vec<(TransitionGroundingId, TransitionGroundingId)>)
    ensures
        res@ == val_pairs(xs@, igs@),
        no_dups(xs@) && no_dups(igs@) ==> no_dups(res@),
{
    let mut res: Vec<(TransitionGroundingId, TransitionGroundingId)> = Vec::new();
    let ghost mut idx: Seq<(int, int)> = Seq::empty();
    let mut a: usize = 0;
    while a < xs.len()
        invariant
            a <= xs@.len(),
            res@ == val_pairs(xs@.subrange(0, a as int), igs@),
            idx.len() == res@.len(),
            forall|m: int| 0 <= m < idx.len() ==> 0 <= (#[trigger] idx[m]).0 < a && 0 <= idx[m].1 < igs@.len()
                && res@[m] == (uninvert(xs@[idx[m].0]), igs@[idx[m].1]),
            forall|m1: int, m2: int| 0 <= m1 < m2 < idx.len() ==> (#[trigger] idx[m1]).0 < (#[trigger] idx[m2]).0
                || (idx[m1].0 == idx[m2].0 && idx[m1].1 < idx[m2].1),
        decreases xs@.len() - a,
    {
        let x = xs[a];
        let og = TransitionGroundingId { state_var_grounding_id: x.0, val_assignment: x.2, op_assignment: x.1 };
        let ghost r0 = res@;
        let mut b: usize = 0;
        while b < igs.len()
            invariant
                b <= igs@.len(),
                a < xs@.len(),
                x == xs@[a as int],
                og == uninvert(x),
                res@ == r0 + val_matches(x, igs@.subrange(0, b as int)),
                idx.len() == res@.len(),
                forall|m: int| 0 <= m < idx.len() ==> 0 <= (#[trigger] idx[m]).0 <= a && 0 <= idx[m].1 < igs@.len()
                    && res@[m] == (uninvert(xs@[idx[m].0]), igs@[idx[m].1]) && (idx[m].0 < a || idx[m].1 < b),
                forall|m1: int, m2: int| 0 <= m1 < m2 < idx.len() ==> (#[trigger] idx[m1]).0 < (#[trigger] idx[m2]).0
                    || (idx[m1].0 == idx[m2].0 && idx[m1].1 < idx[m2].1),
            decreases igs@.len() - b,
        {
            let ig = igs[b];
            proof {
                assert(igs@.subrange(0, b + 1).drop_last() =~= igs@.subrange(0, b as int));
                assert(igs@.subrange(0, b + 1).last() == ig);
            }
            let fed = match x.1 {
                Some(op) => ig.state_var_grounding_id == x.0 && ig.val_assignment == Some(op),
                None => false,
            };
            if fed {
                res.push((og, ig));
                proof {
                    idx = idx.push((a as int, b as int));
                }
                assert(res@ =~= r0 + val_matches(x, igs@.subrange(0, b + 1)));
            }
            b = b + 1;
        }
        proof {
            assert(igs@.subrange(0, b as int) =~= igs@);
            assert(xs@.subrange(0, a + 1).drop_last() =~= xs@.subrange(0, a as int));
            assert(xs@.subrange(0, a + 1).last() == x);
        }
        a = a + 1;
    }
    assert(xs@.subrange(0, a as int) =~= xs@);
    proof {
        if no_dups(xs@) && no_dups(igs@) {
            assert forall|m1: int, m2: int| 0 <= m1 < m2 < res@.len() implies res@[m1] != res@[m2] by {
                assert(idx[m1].0 < idx[m2].0 || (idx[m1].0 == idx[m2].0 && idx[m1].1 < idx[m2].1));
                if idx[m1].0 != idx[m2].0 {
                    let x1 = xs@[idx[m1].0];
                    let x2 = xs@[idx[m2].0];
                    assert(x1 != x2);
                    if uninvert(x1) == uninvert(x2) {
                        assert(x1.0 == x2.0 && x1.1 == x2.1 && x1.2 == x2.2);
                    }
                }
            }
        }
    }
    res
}

/// The compatible grounding pairs of the support from transition `o` to transition `i`.
pub fn ground_pairs_of(tg: &TransitionsGroundingsInfo, o: TransitionId, i: TransitionId) -> (res: Vec<(TransitionGroundingId, TransitionGroundingId)>)
    ensures
        res@ == ground_pairs(tg.entries(), o, i),
        tg.wf() ==> no_dups(res@),
{
    let ogs = tg.groundings_of(o);
    let igs = tg.groundings_of(i);
    proof {
        reveal(ground_pairs);
        if tg.wf() {
            lemma_strictly_sorted_no_dups(ogs@);
            lemma_strictly_sorted_no_dups(igs@);
        }
    }
    if igs.len() > 0 && igs[0].is_pure_eff() {
        eff_pairs_exec(&ogs, &igs)
    } else {
        let xs = inverted_sorted(&ogs);
        proof {
            let c = sorted_inversion(ogs@);
            assert(strictly_sorted(xs@));
            lemma_strictly_sorted_no_dups(xs@);
        }
        val_pairs_exec(&xs, &igs)
    }
}

fn has_support(entries: &Vec<SupportEntry>, t: TransitionId, g: TransitionGroundingId) -> (res: bool)
    ensures
        res == supported(entries@, t, g),
{
    let mut m: usize = 0;
    while m < entries.len()
        invariant
            m <= entries@.len(),
            forall|w: int| 0 <= w < m ==> !(#[trigger] entries@[w].1 == t && (entries@[w].2 matches Some(p) && p.1 == g)),
        decreases entries@.len() - m,
    {
        let e = entries[m];
        if e.1 == t {
            match e.2 {
                Some(p) => {
                    if p.1 == g {
                        return true;
                    }
                },
                None => {},
            }
        }
        m = m + 1;
    }
    false
}

/// Ground supports: for each support between transitions, the pairs of their groundings
/// that are compatible, seen from the support, from the supporting and from the supported
/// ground transition.
pub struct SupportsGroundingsInfo {
    out: Vec<OutEntry>,
    in_: Vec<InEntry>,
    entries: Vec<SupportEntry>,
}

impl SupportsGroundingsInfo {
    /// The ground supports by supporting ground transition.
    pub closed spec fn out_entries(&self) -> Seq<OutEntry> {
        self.out@
    }

    /// The ground supports by supported ground transition, with a `None` entry for a ground
    /// transition that awaits a support and has none.
    pub closed spec fn in_entries(&self) -> Seq<InEntry> {
        self.in_@
    }

    /// The ground supports by support.
    pub closed spec fn entries(&self) -> Seq<SupportEntry> {
        self.entries@
    }

    /// The ground supports of `supports_sorted`, over the groundings of `transitions_groundings`.
    pub fn from(supports_sorted: &SupportsSorted, transitions_groundings: &TransitionsGroundingsInfo) -> (res: SupportsGroundingsInfo)
        ensures
            res.entries() == support_entries(
                transitions_groundings.entries(),
                supports_sorted.sorted_out@.map_values(|s: ((TransitionId, TransitionId), Option<LitId>)| s.0),
            ),
            strictly_sorted(res.out_entries()),
            forall|x: OutEntry| #[trigger] res.out_entries().contains(x) <==> res.entries().contains((x.0, x.2.0, Some((x.1, x.2.1)))),
            strictly_sorted(res.in_entries()),
            forall|x: InEntry| #[trigger] res.in_entries().contains(x) <==> match x.2 {
                Some(s) => res.entries().contains((s.0, x.0, Some((s.1, x.1)))),
                None => awaits_support(*transitions_groundings, x.0, x.1) && !supported(res.entries(), x.0, x.1),
            },
            transitions_groundings.wf() && (forall|a: int, b: int| 0 <= a < b < supports_sorted.sorted_out@.len()
                ==> pair_lt(#[trigger] supports_sorted.sorted_out@[a].0, #[trigger] supports_sorted.sorted_out@[b].0))
                ==> no_dups(res.entries()),
    {
        let tg = transitions_groundings;
        let ghost es = tg.entries();
        let ghost sup = supports_sorted.sorted_out@.map_values(|s: ((TransitionId, TransitionId), Option<LitId>)| s.0);
        let ghost strict = tg.wf() && (forall|a: int, b: int| 0 <= a < b < supports_sorted.sorted_out@.len()
            ==> pair_lt(#[trigger] supports_sorted.sorted_out@[a].0, #[trigger] supports_sorted.sorted_out@[b].0));
        let mut entries: Vec<SupportEntry> = Vec::new();
        let mut k: usize = 0;
        while k < supports_sorted.sorted_out.len()
            invariant
                k <= sup.len(),
                es == tg.entries(),
                sup == supports_sorted.sorted_out@.map_values(|s: ((TransitionId, TransitionId), Option<LitId>)| s.0),
                entries@ == support_entries(es, sup.subrange(0, k as int)),
                strict == (tg.wf() && (forall|a: int, b: int| 0 <= a < b < supports_sorted.sorted_out@.len()
                    ==> pair_lt(#[trigger] supports_sorted.sorted_out@[a].0, #[trigger] supports_sorted.sorted_out@[b].0))),
                forall|m: int| 0 <= m < entries@.len() ==> exists|k2: int| 0 <= k2 < k && #[trigger] sup[k2] == support_of(#[trigger] entries@[m]),
                strict ==> no_dups(entries@),
            decreases sup.len() - k,
        {
            let (o, i) = supports_sorted.sorted_out[k].0;
            let pairs = ground_pairs_of(tg, o, i);
            proof {
                assert(sup.subrange(0, k + 1).drop_last() =~= sup.subrange(0, k as int));
                assert(sup.subrange(0, k + 1).last() == (o, i));
            }
            let ghost e0 = entries@;
            proof {
                assert(sup[k as int] == (o, i));
                if strict {
                    assert forall|m: int| 0 <= m < e0.len() implies support_of(#[trigger] e0[m]) != (o, i) by {
                        let k2 = choose|k2: int| 0 <= k2 < k && #[trigger] sup[k2] == support_of(e0[m]);
                        assert(pair_lt(supports_sorted.sorted_out@[k2].0, supports_sorted.sorted_out@[k as int].0));
                    }
                }
            }
            if pairs.len() == 0 {
                entries.push((o, i, None));
                assert(entries@ =~= e0 + support_group(es, o, i));
                proof {
                    assert forall|m: int| 0 <= m < entries@.len() implies exists|k2: int| 0 <= k2 < k + 1 && #[trigger] sup[k2] == support_of(#[trigger] entries@[m]) by {
                        if m < e0.len() {
                            let k2 = choose|k2: int| 0 <= k2 < k && #[trigger] sup[k2] == support_of(e0[m]);
                            assert(entries@[m] == e0[m]);
                        } else {
                            assert(sup[k as int] == support_of(entries@[m]));
                        }
                    }
                    if strict {
                        assert forall|a: int, b: int| 0 <= a < b < entries@.len() implies entries@[a] != entries@[b] by {
                            if b == e0.len() {
                                assert(entries@[a] == e0[a]);
                                assert(support_of(e0[a]) != (o, i));
                            } else {
                                assert(entries@[a] == e0[a] && entries@[b] == e0[b]);
                            }
                        }
                    }
                }
            } else {
                let mut j: usize = 0;
                while j < pairs.len()
                    invariant
                        j <= pairs@.len(),
                        entries@ == e0 + pairs@.subrange(0, j as int).map_values(
                            |p: (TransitionGroundingId, TransitionGroundingId)| (o, i, Some(p)),
                        ),
                    decreases pairs@.len() - j,
                {
                    entries.push((o, i, Some(pairs[j])));
                    assert(entries@ =~= e0 + pairs@.subrange(0, j + 1).map_values(
                        |p: (TransitionGroundingId, TransitionGroundingId)| (o, i, Some(p)),
                    ));
                    j = j + 1;
                }
                assert(pairs@.subrange(0, j as int) =~= pairs@);
                assert(entries@ =~= e0 + support_group(es, o, i));
                proof {
                    assert forall|m: int| 0 <= m < entries@.len() implies exists|k2: int| 0 <= k2 < k + 1 && #[trigger] sup[k2] == support_of(#[trigger] entries@[m]) by {
                        if m < e0.len() {
                            let k2 = choose|k2: int| 0 <= k2 < k && #[trigger] sup[k2] == support_of(e0[m]);
                            assert(entries@[m] == e0[m]);
                        } else {
                            assert(entries@[m] == (o, i, Some(pairs@[m - e0.len()])));
                            assert(sup[k as int] == support_of(entries@[m]));
                        }
                    }
                    if strict {
                        assert forall|a: int, b: int| 0 <= a < b < entries@.len() implies entries@[a] != entries@[b] by {
                            if b < e0.len() {
                                assert(entries@[a] == e0[a] && entries@[b] == e0[b]);
                            } else if a < e0.len() {
                                assert(entries@[a] == e0[a]);
                                assert(support_of(e0[a]) != (o, i));
                                assert(entries@[b] == (o, i, Some(pairs@[b - e0.len()])));
                            } else {
                                assert(entries@[a] == (o, i, Some(pairs@[a - e0.len()])));
                                assert(entries@[b] == (o, i, Some(pairs@[b - e0.len()])));
                                assert(pairs@[a - e0.len()] != pairs@[b - e0.len()]);
                            }
                        }
                    }
                }
            }
            k = k + 1;
        }
        assert(sup.subrange(0, k as int) =~= sup);
        let ghost ents = entries@;
        let mut out_pending: Vec<OutEntry> = Vec::new();
        let mut in_pending: Vec<InEntry> = Vec::new();
        let mut m: usize = 0;
        while m < entries.len()
            invariant
                m <= ents.len(),
                ents == entries@,
                forall|x: OutEntry| #[trigger] out_pending@.contains(x) <==> ents.subrange(0, m as int).contains((x.0, x.2.0, Some((x.1, x.2.1)))),
                forall|x: InEntry| #[trigger] in_pending@.contains(x) <==> match x.2 {
                    Some(s) => ents.subrange(0, m as int).contains((s.0, x.0, Some((s.1, x.1)))),
                    None => false,
                },
            decreases ents.len() - m,
        {
            let e = entries[m];
            let ghost before_sub = ents.subrange(0, m as int);
            proof {
                assert(ents.subrange(0, m + 1) =~= before_sub.push(e));
            }
            let ghost op0 = out_pending@;
            let ghost ip0 = in_pending@;
            match e.2 {
                Some(p) => {
                    out_pending.push((e.0, p.0, (e.1, p.1)));
                    in_pending.push((e.1, p.1, Some((e.0, p.0))));
                },
                None => {},
            }
            proof {
                assert forall|x: OutEntry| #[trigger] out_pending@.contains(x) <==> ents.subrange(0, m + 1).contains((x.0, x.2.0, Some((x.1, x.2.1)))) by {
                    vstd::seq_lib::lemma_seq_contains_after_push(before_sub, e, (x.0, x.2.0, Some((x.1, x.2.1))));
                    if let Some(p) = e.2 {
                        vstd::seq_lib::lemma_seq_contains_after_push(op0, (e.0, p.0, (e.1, p.1)), x);
                    }
                }
                assert forall|x: InEntry| #[trigger] in_pending@.contains(x) <==> match x.2 {
                    Some(s) => ents.subrange(0, m + 1).contains((s.0, x.0, Some((s.1, x.1)))),
                    None => false,
                } by {
                    if let Some(s) = x.2 {
                        vstd::seq_lib::lemma_seq_contains_after_push(before_sub, e, (s.0, x.0, Some((s.1, x.1))));
                    }
                    if let Some(p) = e.2 {
                        vstd::seq_lib::lemma_seq_contains_after_push(ip0, (e.1, p.1, Some((e.0, p.0))), x);
                    }
                }
            }
            m = m + 1;
        }
        assert(ents.subrange(0, m as int) =~= ents);
        let mut q: usize = 0;
        while q < tg.entries.len()
            invariant
                q <= es.len(),
                es == tg.entries(),
                es == tg.entries@,
                ents == entries@,
                forall|x: InEntry| #[trigger] in_pending@.contains(x) <==> match x.2 {
                    Some(s) => ents.contains((s.0, x.0, Some((s.1, x.1)))),
                    None => (exists|w: int| #![trigger es[w]] 0 <= w < q && es[w].1 == x.0 && es[w].2 == x.1)
                        && (!(x.1.op_assignment is Some && x.1.val_assignment is None) || tg.source_of(x.0) matches Some(Some(_)))
                        && !supported(ents, x.0, x.1),
                },
            decreases es.len() - q,
        {
            let e = tg.entries[q];
            let t = e.1;
            let g = e.2;
            let ghost ip0 = in_pending@;
            let src = tg.get_source(t);
            let initial = match src {
                Some(Some(_)) => false,
                _ => true,
            };
            let awaits = !g.is_pure_eff() || !initial;
            if awaits && !has_support(&entries, t, g) {
                in_pending.push((t, g, None));
            }
            proof {
                assert forall|x: InEntry| #[trigger] in_pending@.contains(x) <==> match x.2 {
                    Some(s) => ents.contains((s.0, x.0, Some((s.1, x.1)))),
                    None => (exists|w: int| #![trigger es[w]] 0 <= w < q + 1 && es[w].1 == x.0 && es[w].2 == x.1)
                        && (!(x.1.op_assignment is Some && x.1.val_assignment is None) || tg.source_of(x.0) matches Some(Some(_)))
                        && !supported(ents, x.0, x.1),
                } by {
                    vstd::seq_lib::lemma_seq_contains_after_push(ip0, (t, g, None), x);
                    if x.2 is None && x.0 == t && x.1 == g {
                        assert(es[q as int].1 == x.0 && es[q as int].2 == x.1);
                    }
                    if x.2 is None && (exists|w: int| #![trigger es[w]] 0 <= w < q + 1 && es[w].1 == x.0 && es[w].2 == x.1) {
                        let w = choose|w: int| #![trigger es[w]] 0 <= w < q + 1 && es[w].1 == x.0 && es[w].2 == x.1;
                        if w < q {
                            assert(exists|w: int| #![trigger es[w]] 0 <= w < q && es[w].1 == x.0 && es[w].2 == x.1);
                        }
                    }
                }
            }
            q = q + 1;
        }
        let mut out: Vec<OutEntry> = Vec::new();
        merge_dedup_into(&mut out_pending, &mut out);
        let mut in_: Vec<InEntry> = Vec::new();
        merge_dedup_into(&mut in_pending, &mut in_);
        let res = SupportsGroundingsInfo { out, in_, entries };
        proof {
            assert forall|x: InEntry| #[trigger] res.in_entries().contains(x) <==> match x.2 {
                Some(s) => res.entries().contains((s.0, x.0, Some((s.1, x.1)))),
                None => awaits_support(*transitions_groundings, x.0, x.1) && !supported(res.entries(), x.0, x.1),
            } by {
                if x.2 is None {
                    if (exists|w: int| #![trigger es[w]] 0 <= w < es.len() && es[w].1 == x.0 && es[w].2 == x.1) {
                        let w = choose|w: int| #![trigger es[w]] 0 <= w < es.len() && es[w].1 == x.0 && es[w].2 == x.1;
                        assert(tg.entries()[w].1 == x.0 && tg.entries()[w].2 == x.1);
                    }
                    if awaits_support(*transitions_groundings, x.0, x.1) {
                        let w = choose|w: int| #![trigger tg.entries()[w]] 0 <= w < tg.entries().len() && tg.entries()[w].1 == x.0 && tg.entries()[w].2 == x.1;
                        assert(es[w].1 == x.0 && es[w].2 == x.1);
                    }
                }
            }
        }
        res
    }

    /// The ground supports by support.
    pub fn iter_all(&self) -> (res: &[SupportEntry])
        ensures
            res@ == self.entries(),
    {
        self.entries.as_slice()
    }

    /// The ground supports by supporting ground transition, sorted.
    pub fn iter_out_all(&self) -> (res: &[OutEntry])
        ensures
            res@ == self.out_entries(),
    {
        self.out.as_slice()
    }

    /// The ground supports by supported ground transition, sorted.
    pub fn iter_in_all(&self) -> (res: &[InEntry])
        ensures
            res@ == self.in_entries(),
    {
        self.in_.as_slice()
    }
}

/// `a` comes strictly before `b`, by supporting then supported transition.
pub open spec fn pair_lt(a: (TransitionId, TransitionId), b: (TransitionId, TransitionId)) -> bool {
    a.0 < b.0 || (a.0 == b.0 && a.1 < b.1)
}

/// The support an entry belongs to.
pub open spec fn support_of(e: SupportEntry) -> (TransitionId, TransitionId) {
    (e.0, e.1)
}

proof fn lemma_support_group(es: Seq<SourcedEntry>, o: TransitionId, i: TransitionId)
    ensures
        support_group(es, o, i).len() >= 1,
        forall|m: int| 0 <= m < support_group(es, o, i).len() ==> support_of(#[trigger] support_group(es, o, i)[m]) == (o, i),
        forall|m: int| 0 <= m < support_group(es, o, i).len() && (#[trigger] support_group(es, o, i)[m]).2 is None
            ==> support_group(es, o, i).len() == 1,
{
}

/// Each ground support belongs to one of the supports.
proof fn lemma_support_entries_origin(es: Seq<SourcedEntry>, sup: Seq<(TransitionId, TransitionId)>)
    ensures
        forall|m: int| 0 <= m < support_entries(es, sup).len() ==> exists|k: int| 0 <= k < sup.len()
            && #[trigger] sup[k] == support_of(#[trigger] support_entries(es, sup)[m]),
    decreases sup.len(),
{
    if sup.len() > 0 {
        let s0 = sup.drop_last();
        let last = sup.last();
        lemma_support_entries_origin(es, s0);
        lemma_support_group(es, last.0, last.1);
        let e0 = support_entries(es, s0);
        let g = support_group(es, last.0, last.1);
        let e = support_entries(es, sup);
        assert(e == e0 + g);
        let n = e0.len() as int;
        assert forall|m: int| 0 <= m < e.len() implies exists|k: int| 0 <= k < sup.len()
            && #[trigger] sup[k] == support_of(#[trigger] e[m]) by {
            if m < n {
                assert(e[m] == e0[m]);
                let k = choose|k: int| 0 <= k < s0.len() && #[trigger] s0[k] == support_of(e0[m]);
                assert(sup[k] == s0[k]);
            } else {
                assert(e[m] == g[m - n]);
                assert(sup[sup.len() - 1] == support_of(e[m]));
            }
        }
    }
}

/// Each support has at least one ground support.
proof fn lemma_support_entries_cover(es: Seq<SourcedEntry>, sup: Seq<(TransitionId, TransitionId)>)
    ensures
        forall|k: int| #![trigger sup[k]] 0 <= k < sup.len() ==> exists|m: int| #![trigger support_entries(es, sup)[m]]
            0 <= m < support_entries(es, sup).len() && support_of(support_entries(es, sup)[m]) == sup[k],
    decreases sup.len(),
{
    if sup.len() > 0 {
        let s0 = sup.drop_last();
        let last = sup.last();
        lemma_support_entries_cover(es, s0);
        lemma_support_group(es, last.0, last.1);
        let e0 = support_entries(es, s0);
        let g = support_group(es, last.0, last.1);
        let e = support_entries(es, sup);
        assert(e == e0 + g);
        let n = e0.len() as int;
        assert forall|k: int| #![trigger sup[k]] 0 <= k < sup.len() implies exists|m: int| #![trigger e[m]]
            0 <= m < e.len() && support_of(e[m]) == sup[k] by {
            if k < s0.len() {
                assert(s0[k] == sup[k]);
                let m = choose|m: int| #![trigger e0[m]] 0 <= m < e0.len() && support_of(e0[m]) == s0[k];
                assert(e[m] == e0[m]);
            } else {
                assert(e[n] == g[0]);
                assert(support_of(e[n]) == sup[k]);
            }
        }
    }
}

proof fn lemma_strict_prefix(sup: Seq<(TransitionId, TransitionId)>)
    requires
        sup.len() > 0,
        forall|a: int, b: int| 0 <= a < b < sup.len() ==> pair_lt(#[trigger] sup[a], #[trigger] sup[b]),
    ensures
        forall|a: int, b: int| 0 <= a < b < sup.drop_last().len() ==> pair_lt(#[trigger] sup.drop_last()[a], #[trigger] sup.drop_last()[b]),
{
    assert forall|a: int, b: int| 0 <= a < b < sup.drop_last().len() implies pair_lt(#[trigger] sup.drop_last()[a], #[trigger] sup.drop_last()[b]) by {
        assert(sup.drop_last()[a] == sup[a] && sup.drop_last()[b] == sup[b]);
    }
}

/// The entries of the earlier supports come from supports strictly before the last one.
proof fn lemma_earlier_before_last(es: Seq<SourcedEntry>, sup: Seq<(TransitionId, TransitionId)>)
    requires
        sup.len() > 0,
        forall|a: int, b: int| 0 <= a < b < sup.len() ==> pair_lt(#[trigger] sup[a], #[trigger] sup[b]),
    ensures
        forall|m: int| 0 <= m < support_entries(es, sup.drop_last()).len()
            ==> pair_lt(support_of(#[trigger] support_entries(es, sup.drop_last())[m]), sup.last()),
{
    let s0 = sup.drop_last();
    let e0 = support_entries(es, s0);
    lemma_support_entries_origin(es, s0);
    assert forall|m: int| 0 <= m < e0.len() implies pair_lt(support_of(#[trigger] e0[m]), sup.last()) by {
        let k = choose|k: int| 0 <= k < s0.len() && #[trigger] s0[k] == support_of(e0[m]);
        assert(sup[k] == s0[k]);
        assert(pair_lt(sup[k], sup[sup.len() - 1]));
    }
}

/// Of supports in strictly increasing order, the ground supports come in the same order.
proof fn lemma_support_entries_ordered(es: Seq<SourcedEntry>, sup: Seq<(TransitionId, TransitionId)>)
    requires
        forall|a: int, b: int| 0 <= a < b < sup.len() ==> pair_lt(#[trigger] sup[a], #[trigger] sup[b]),
    ensures
        forall|a: int, b: int| 0 <= a < b < support_entries(es, sup).len()
            ==> support_of(#[trigger] support_entries(es, sup)[a]) == support_of(#[trigger] support_entries(es, sup)[b])
                || pair_lt(support_of(support_entries(es, sup)[a]), support_of(support_entries(es, sup)[b])),
    decreases sup.len(),
{
    if sup.len() > 0 {
        let s0 = sup.drop_last();
        let last = sup.last();
        lemma_strict_prefix(sup);
        lemma_support_entries_ordered(es, s0);
        lemma_earlier_before_last(es, sup);
        lemma_support_group(es, last.0, last.1);
        let e0 = support_entries(es, s0);
        let g = support_group(es, last.0, last.1);
        let e = support_entries(es, sup);
        assert(e == e0 + g);
        let n = e0.len() as int;
        assert forall|a: int, b: int| 0 <= a < b < e.len() implies support_of(#[trigger] e[a]) == support_of(#[trigger] e[b])
            || pair_lt(support_of(e[a]), support_of(e[b])) by {
            if b < n {
                assert(e[a] == e0[a] && e[b] == e0[b]);
            } else if a < n {
                assert(e[a] == e0[a] && e[b] == g[b - n]);
            } else {
                assert(e[a] == g[a - n] && e[b] == g[b - n]);
            }
        }
    }
}

/// Of supports in strictly increasing order, a ground support without a pair of groundings
/// is the only one of its support.
proof fn lemma_support_entries_none_alone(es: Seq<SourcedEntry>, sup: Seq<(TransitionId, TransitionId)>)
    requires
        forall|a: int, b: int| 0 <= a < b < sup.len() ==> pair_lt(#[trigger] sup[a], #[trigger] sup[b]),
    ensures
        forall|a: int, b: int| 0 <= a < support_entries(es, sup).len() && 0 <= b < support_entries(es, sup).len() && a != b
            && (#[trigger] support_entries(es, sup)[a]).2 is None
            ==> support_of(support_entries(es, sup)[a]) != support_of(#[trigger] support_entries(es, sup)[b]),
    decreases sup.len(),
{
    if sup.len() > 0 {
        let s0 = sup.drop_last();
        let last = sup.last();
        lemma_strict_prefix(sup);
        lemma_support_entries_none_alone(es, s0);
        lemma_earlier_before_last(es, sup);
        lemma_support_group(es, last.0, last.1);
        let e0 = support_entries(es, s0);
        let g = support_group(es, last.0, last.1);
        let e = support_entries(es, sup);
        assert(e == e0 + g);
        let n = e0.len() as int;
        assert forall|a: int, b: int| 0 <= a < e.len() && 0 <= b < e.len() && a != b && (#[trigger] e[a]).2 is None
            implies support_of(e[a]) != support_of(#[trigger] e[b]) by {
            if a < n && b < n {
                assert(e[a] == e0[a] && e[b] == e0[b]);
            } else if a < n {
                assert(e[a] == e0[a] && e[b] == g[b - n]);
            } else if b < n {
                assert(e[a] == g[a - n] && e[b] == e0[b]);
            } else {
                assert(e[a] == g[a - n]);
                assert(g.len() == 1);
            }
        }
    }
}

/// Of supports given in strictly increasing order, the ground supports come grouped by
/// support and in the same order; each ground support belongs to a support, each support has
/// at least one, and one without a pair of groundings is the only one of its support.
pub proof fn lemma_support_entries_shape(es: Seq<SourcedEntry>, sup: Seq<(TransitionId, TransitionId)>)
    requires
        forall|a: int, b: int| 0 <= a < b < sup.len() ==> pair_lt(#[trigger] sup[a], #[trigger] sup[b]),
    ensures
        forall|m: int| 0 <= m < support_entries(es, sup).len() ==> exists|k: int| 0 <= k < sup.len()
            && #[trigger] sup[k] == support_of(#[trigger] support_entries(es, sup)[m]),
        forall|k: int| #![trigger sup[k]] 0 <= k < sup.len() ==> exists|m: int| #![trigger support_entries(es, sup)[m]]
            0 <= m < support_entries(es, sup).len() && support_of(support_entries(es, sup)[m]) == sup[k],
        forall|a: int, b: int| 0 <= a < b < support_entries(es, sup).len()
            ==> support_of(#[trigger] support_entries(es, sup)[a]) == support_of(#[trigger] support_entries(es, sup)[b])
                || pair_lt(support_of(support_entries(es, sup)[a]), support_of(support_entries(es, sup)[b])),
        forall|a: int, b: int| 0 <= a < support_entries(es, sup).len() && 0 <= b < support_entries(es, sup).len() && a != b
            && (#[trigger] support_entries(es, sup)[a]).2 is None
            ==> support_of(support_entries(es, sup)[a]) != support_of(#[trigger] support_entries(es, sup)[b]),
{
    lemma_support_entries_origin(es, sup);
    lemma_support_entries_cover(es, sup);
    lemma_support_entries_ordered(es, sup);
    lemma_support_entries_none_alone(es, sup);
}

/// No element comes strictly before an earlier one.
pub open spec fn sorted_keyed<T: Keyed>(v: Seq<T>) -> bool {
    forall|i: int, j: int| 0 <= i < j < v.len() ==> !before(#[trigger] v[j], #[trigger] v[i])
}

/// The elements of `v`, sorted (equal elements kept).
pub fn sort_keyed<T: Keyed + Copy>(v: &Vec<T>) -> (res: Vec<T>)
    ensures
        sorted_keyed(res@),
        res@.to_multiset() == v@.to_multiset(),
{
    let mut res: Vec<T> = Vec::new();
    let mut a: usize = 0;
    assert(v@.subrange(0, 0) =~= res@);
    while a < v.len()
        invariant
            a <= v@.len(),
            sorted_keyed(res@),
            res@.to_multiset() == v@.subrange(0, a as int).to_multiset(),
        decreases v@.len() - a,
    {
        let x = v[a];
        let mut k: usize = 0;
        while k < res.len() && !before_exec(&x, &res[k])
            invariant
                k <= res@.len(),
                forall|j: int| 0 <= j < k ==> !before(x, #[trigger] res@[j]),
            decreases res@.len() - k,
        {
            k = k + 1;
        }
        let ghost m = res@;
        res.insert(k, x);
        proof {
            assert forall|i: int, j: int| 0 <= i < j < res@.len() implies !before(#[trigger] res@[j], #[trigger] res@[i]) by {
                if j < k {
                    assert(res@[i] == m[i] && res@[j] == m[j]);
                } else if j == k {
                    assert(res@[i] == m[i]);
                    assert(!before(x, m[i]));
                } else if i == k {
                    assert(res@[j] == m[j - 1]);
                    assert(k < m.len());
                    assert(before(x, m[k as int]));
                    T::lemma_key(x, m[k as int]);
                    T::lemma_key(m[j - 1], x);
                    T::lemma_key(m[j - 1], m[k as int]);
                    T::lemma_key(m[k as int], x);
                    if before(m[j - 1], x) {
                        if j - 1 == k {
                            lemma_lex_asym(x.key(), m[k as int].key());
                        } else {
                            lemma_lex_trans(m[j - 1].key(), x.key(), m[k as int].key());
                            assert(!before(m[j - 1], m[k as int]));
                        }
                    }
                } else if i < k {
                    assert(res@[i] == m[i] && res@[j] == m[j - 1]);
                } else {
                    assert(res@[i] == m[i - 1] && res@[j] == m[j - 1]);
                }
            }
            vstd::seq_lib::to_multiset_insert(m, k as int, x);
            assert(v@.subrange(0, a + 1) =~= v@.subrange(0, a as int).push(x));
            vstd::seq_lib::to_multiset_build(v@.subrange(0, a as int), x);
        }
        a = a + 1;
    }
    assert(v@.subrange(0, a as int) =~= v@);
    res
}

impl Keyed for ((TransitionId, TransitionId), Option<LitId>) {
    open spec fn key(self) -> Seq<int> {
        seq![self.0.0 as int, self.0.1 as int] + match self.1 {
            Some(l) => seq![1int, l as int],
            None => seq![0int, 0int],
        }
    }

    open spec fn key_len() -> nat {
        4
    }

    proof fn lemma_key(a: Self, b: Self) {
        if a.key() == b.key() {
            let ka = a.key();
            let kb = b.key();
            assert(ka[0] == kb[0] && ka[1] == kb[1] && ka[2] == kb[2] && ka[3] == kb[3]);
        }
    }

    fn key_exec(&self) -> (res: Vec<i128>) {
        let mut v: Vec<i128> = Vec::new();
        assert(v@.map_values(|x: i128| x as int) =~= Seq::<int>::empty());
        push_one(&mut v, self.0.0);
        push_one(&mut v, self.0.1);
        let ghost v1 = v@.map_values(|x: i128| x as int);
        assert(v1 =~= seq![self.0.0 as int, self.0.1 as int]);
        match self.1 {
            Some(l) => {
                v.push(1);
                v.push(l as i128);
                assert(v@.map_values(|x: i128| x as int) =~= v1 + seq![1int, l as int]);
            },
            None => {
                v.push(0);
                v.push(0);
                assert(v@.map_values(|x: i128| x as int) =~= v1 + seq![0int, 0int]);
            },
        }
        assert(v@.map_values(|x: i128| x as int) =~= self.key());
        v
    }

    fn same(&self, other: &Self) -> (res: bool) {
        self.0.0 == other.0.0 && self.0.1 == other.0.1 && self.1 == other.1
    }
}

impl Keyed for (TransitionId, TransitionId) {
    open spec fn key(self) -> Seq<int> {
        seq![self.0 as int, self.1 as int]
    }

    open spec fn key_len() -> nat {
        2
    }

    proof fn lemma_key(a: Self, b: Self) {
        if a.key() == b.key() {
            assert(a.key()[0] == b.key()[0] && a.key()[1] == b.key()[1]);
        }
    }

    fn key_exec(&self) -> (res: Vec<i128>) {
        let mut v: Vec<i128> = Vec::new();
        assert(v@.map_values(|x: i128| x as int) =~= Seq::<int>::empty());
        push_one(&mut v, self.0);
        push_one(&mut v, self.1);
        assert(v@.map_values(|x: i128| x as int) =~= self.key());
        v
    }

    fn same(&self, other: &Self) -> (res: bool) {
        self.0 == other.0 && self.1 == other.1
    }
}

impl Keyed for TransitionGroundingId {
    open spec fn key(self) -> Seq<int> {
        tgid_key(self)
    }

    open spec fn key_len() -> nat {
        5
    }

    proof fn lemma_key(a: Self, b: Self) {
        lemma_tgid_key(a, b);
    }

    fn key_exec(&self) -> (res: Vec<i128>) {
        let mut v: Vec<i128> = Vec::new();
        assert(v@.map_values(|x: i128| x as int) =~= Seq::<int>::empty());
        push_tgid(&mut v, *self);
        assert(v@.map_values(|x: i128| x as int) =~= self.key());
        v
    }

    fn same(&self, other: &Self) -> (res: bool) {
        *self == *other
    }
}

} // verus!
