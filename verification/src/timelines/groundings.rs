//! Interning of the groundings of sources, state variables and terms, used by the LP encoding
//! of timelines.
use vstd::prelude::*;

verus! {

/// An integer constant.
pub type IntCst = i32;

/// Identifier of a task (a concrete source of transitions).
#[derive(Debug, Clone, Copy, PartialEq, Eq, Structural, PartialOrd, Ord, Hash)]
pub struct TaskId {
    pub id: usize,
}

impl TaskId {
    pub fn from_int(id: usize) -> (res: TaskId)
        ensures
            res.id == id,
    {
        TaskId { id }
    }
}

/// Source of a transition: a task, or `None` for the initial/final action.
pub type Source = Option<TaskId>;

pub type SourceGroundingId = usize;

pub type TransitionId = usize;

/// Values given to the parameters of a source.
pub type SourceGrounding = Vec<IntCst>;

/// Interned groundings of sources: each gets an identifier, in the order they are posted.
pub struct SourcesGroundingsInfo {
    /// Identifiers of the groundings of the empty source, in the order they were posted.
    pub entries_empty: Vec<SourceGroundingId>,
    /// For each task (by index), identifiers of its groundings, if it has any.
    pub entries_tasks: Vec<Option<Vec<SourceGroundingId>>>,
    /// Source and grounding of each identifier.
    groundings_rev: Vec<(Source, SourceGrounding)>,
}

/// The posted groundings as values.
pub open spec fn groundings_view(g: Seq<(Source, SourceGrounding)>) -> Seq<(Source, Seq<IntCst>)> {
    g.map_values(|e: (Source, SourceGrounding)| (e.0, e.1@))
}

/// The identifiers of the groundings posted for `source`, in increasing order.
pub open spec fn ids_of(g: Seq<(Source, Seq<IntCst>)>, source: Source) -> Seq<SourceGroundingId>
    decreases g.len(),
{
    if g.len() == 0 {
        seq![]
    } else if g.last().0 == source {
        ids_of(g.drop_last(), source).push((g.len() - 1) as usize)
    } else {
        ids_of(g.drop_last(), source)
    }
}

proof fn lemma_ids_of_push(g: Seq<(Source, Seq<IntCst>)>, x: (Source, Seq<IntCst>), source: Source)
    ensures
        ids_of(g.push(x), source) == if x.0 == source {
            ids_of(g, source).push(g.len() as usize)
        } else {
            ids_of(g, source)
        },
{
    assert(g.push(x).drop_last() =~= g);
}

impl SourcesGroundingsInfo {
    /// The groundings posted so far, in order: the identifier of each is its index.
    pub closed spec fn posted(&self) -> Seq<(Source, Seq<IntCst>)> {
        groundings_view(self.groundings_rev@)
    }

    /// The entries hold, for each source, the identifiers of its groundings in order.
    pub closed spec fn wf(&self) -> bool {
        &&& self.entries_empty@ == ids_of(self.posted(), None)
        &&& forall|t: int| 0 <= t < self.entries_tasks@.len() ==> match #[trigger] self.entries_tasks@[t] {
            Some(v) => v@ == ids_of(self.posted(), Some(TaskId { id: t as usize })) && v@.len() > 0,
            None => ids_of(self.posted(), Some(TaskId { id: t as usize })).len() == 0,
        }
        &&& forall|t: usize| t >= self.entries_tasks@.len() ==> #[trigger] ids_of(self.posted(), Some(TaskId { id: t })).len() == 0
    }

    /// No grounding posted.
    pub fn default() -> (res: SourcesGroundingsInfo)
        ensures
            res.wf(),
            res.posted().len() == 0,
    {
        let res = SourcesGroundingsInfo { entries_empty: Vec::new(), entries_tasks: Vec::new(), groundings_rev: Vec::new() };
        assert(res.posted() =~= Seq::<(Source, Seq<IntCst>)>::empty());
        res
    }

    /// Interns a grounding of a source (which must not have been posted for that source
    /// already) and returns its identifier: the number of groundings posted before it.
    pub fn post_ground_source(&mut self, source: Source, source_grounding: &SourceGrounding) -> (res: SourceGroundingId)
        requires
            old(self).wf(),
            !old(self).posted().contains((source, source_grounding@)),
        ensures
            final(self).wf(),
            res == old(self).posted().len(),
            final(self).posted() == old(self).posted().push((source, source_grounding@)),
    {
        let ghost p0 = self.posted();
        let source_grounding_id = self.groundings_rev.len();
        self.groundings_rev.push((source, source_grounding.clone()));
        proof {
            assert(self.posted() =~= p0.push((source, source_grounding@)));
            assert(self.posted().drop_last() =~= p0);
        }
        if let Some(task_id) = source {
            let t = task_id.id;
            let ghost g_after = self.groundings_rev@;
            while self.entries_tasks.len() <= t
                invariant
                    self.groundings_rev@ == g_after,
                    self.entries_empty@ == ids_of(p0, None),
                    forall|u: int| 0 <= u < self.entries_tasks@.len() ==> match #[trigger] self.entries_tasks@[u] {
                        Some(v) => v@ == ids_of(p0, Some(TaskId { id: u as usize })) && v@.len() > 0,
                        None => ids_of(p0, Some(TaskId { id: u as usize })).len() == 0,
                    },
                    forall|u: usize| u >= self.entries_tasks@.len() ==> #[trigger] ids_of(p0, Some(TaskId { id: u })).len() == 0,
                decreases t + 1 - self.entries_tasks@.len(),
            {
                self.entries_tasks.push(None);
            }
            let ghost e0 = self.entries_tasks@[t as int];
            let ghost tasks0 = self.entries_tasks@;
            let mut entry: Option<Vec<SourceGroundingId>> = None;
            std::mem::swap(&mut entry, &mut self.entries_tasks[t]);
            assert(entry == e0);
            let mut v = match entry {
                Some(v) => v,
                None => Vec::new(),
            };
            proof {
                assert(task_id == TaskId { id: t });
                lemma_ids_of_push(p0, (source, source_grounding@), source);
            }
            v.push(source_grounding_id);
            assert(v@ == ids_of(p0, source).push(source_grounding_id));
            self.entries_tasks.set(t, Some(v));
            proof {
                lemma_ids_of_push(p0, (source, source_grounding@), source);
                lemma_ids_of_push(p0, (source, source_grounding@), None);
                assert(v@ == ids_of(self.posted(), source));
                assert forall|u: usize| u >= self.entries_tasks@.len() implies #[trigger] ids_of(self.posted(), Some(TaskId { id: u })).len() == 0 by {
                    lemma_ids_of_push(p0, (source, source_grounding@), Some(TaskId { id: u }));
                    assert(u != t);
                    assert(Some(TaskId { id: u }) != source);
                    assert(u >= tasks0.len());
                    assert(ids_of(p0, Some(TaskId { id: u })).len() == 0);
                }
                assert forall|u: int| 0 <= u < self.entries_tasks@.len() implies match #[trigger] self.entries_tasks@[u] {
                    Some(w) => w@ == ids_of(self.posted(), Some(TaskId { id: u as usize })) && w@.len() > 0,
                    None => ids_of(self.posted(), Some(TaskId { id: u as usize })).len() == 0,
                } by {
                    lemma_ids_of_push(p0, (source, source_grounding@), Some(TaskId { id: u as usize }));
                    if u != t {
                        assert(Some(TaskId { id: u as usize }) != source);
                        assert(self.entries_tasks@[u] == tasks0[u]);
                    }
                }
            }
        } else {
            self.entries_empty.push(source_grounding_id);
            proof {
                lemma_ids_of_push(p0, (source, source_grounding@), None);
                assert forall|u: int| 0 <= u < self.entries_tasks@.len() implies match #[trigger] self.entries_tasks@[u] {
                    Some(w) => w@ == ids_of(self.posted(), Some(TaskId { id: u as usize })) && w@.len() > 0,
                    None => ids_of(self.posted(), Some(TaskId { id: u as usize })).len() == 0,
                } by {
                    lemma_ids_of_push(p0, (source, source_grounding@), Some(TaskId { id: u as usize }));
                }
                assert forall|u: usize| u >= self.entries_tasks@.len() implies #[trigger] ids_of(self.posted(), Some(TaskId { id: u })).len() == 0 by {
                    lemma_ids_of_push(p0, (source, source_grounding@), Some(TaskId { id: u }));
                }
            }
        }
        source_grounding_id
    }

    /// The identifiers of the groundings of `source`, in the order they were posted.
    pub fn get(&self, source: Source) -> (res: &[SourceGroundingId])
        requires
            self.wf(),
        ensures
            res@ == ids_of(self.posted(), source),
    {
        if let Some(task_id) = source {
            if task_id.id < self.entries_tasks.len() {
                match &self.entries_tasks[task_id.id] {
                    Some(v) => v.as_slice(),
                    None => {
                        let e: &[SourceGroundingId] = &[];
                        assert(task_id == TaskId { id: task_id.id });
                        assert(e@ =~= ids_of(self.posted(), source));
                        e
                    },
                }
            } else {
                let e: &[SourceGroundingId] = &[];
                assert(task_id == TaskId { id: task_id.id });
                assert(ids_of(self.posted(), Some(TaskId { id: task_id.id })).len() == 0);
                assert(e@ =~= ids_of(self.posted(), source));
                e
            }
        } else {
            self.entries_empty.as_slice()
        }
    }
}


/// Whether two slices of constants are equal.
pub fn csts_eq(a: &[IntCst], b: &[IntCst]) -> (res: bool)
    ensures
        res == (a@ == b@),
{
    if a.len() != b.len() {
        return false;
    }
    let mut i: usize = 0;
    while i < a.len()
        invariant
            i <= a.len() == b.len(),
            forall|j: int| 0 <= j < i ==> a@[j] == b@[j],
        decreases a.len() - i,
    {
        if a[i] != b[i] {
            return false;
        }
        i = i + 1;
    }
    assert(a@ =~= b@);
    true
}

pub type FluentId = usize;

pub type StateVarGroundingId = usize;

/// Interned state variable groundings: each fluent gets an identifier (the order in which
/// fluents are first seen), each (fluent, arguments) pair too.
pub struct StateVarsGroundingsInfo {
    fluents_ids: Vec<String>,
    entries: Vec<(FluentId, Vec<IntCst>)>,
}

impl StateVarsGroundingsInfo {
    /// The fluents known, by identifier.
    pub closed spec fn fluents(&self) -> Seq<Seq<char>> {
        self.fluents_ids@.map_values(|f: String| f@)
    }

    /// The state variable groundings known, by identifier.
    pub closed spec fn groundings(&self) -> Seq<(FluentId, Seq<IntCst>)> {
        self.entries@.map_values(|e: (FluentId, Vec<IntCst>)| (e.0, e.1@))
    }

    /// Nothing is known twice, and every state variable grounding is about a known fluent.
    pub open spec fn wf(&self) -> bool {
        &&& self.fluents().no_duplicates()
        &&& self.groundings().no_duplicates()
        &&& forall|k: int| 0 <= k < self.groundings().len() ==> (#[trigger] self.groundings()[k]).0 < self.fluents().len()
    }

    /// Nothing known.
    pub fn default() -> (res: StateVarsGroundingsInfo)
        ensures
            res.wf(),
            res.fluents().len() == 0,
            res.groundings().len() == 0,
    {
        let res = StateVarsGroundingsInfo { fluents_ids: Vec::new(), entries: Vec::new() };
        assert(res.fluents() =~= Seq::<Seq<char>>::empty());
        assert(res.groundings() =~= Seq::<(FluentId, Seq<IntCst>)>::empty());
        res
    }

    /// Index of `fluent` among the known fluents.
    fn find_fluent(&self, fluent: &String) -> (res: Option<usize>)
        ensures
            match res {
                Some(i) => i < self.fluents().len() && self.fluents()[i as int] == fluent@,
                None => !self.fluents().contains(fluent@),
            },
    {
        let mut i: usize = 0;
        while i < self.fluents_ids.len()
            invariant
                i <= self.fluents_ids@.len(),
                forall|j: int| 0 <= j < i ==> self.fluents()[j] != fluent@,
            decreases self.fluents_ids@.len() - i,
        {
            if self.fluents_ids[i] == *fluent {
                return Some(i);
            }
            i = i + 1;
        }
        None
    }

    /// Index of `(fid, args)` among the known state variable groundings.
    fn find_grounding(&self, fid: FluentId, args: &[IntCst]) -> (res: Option<usize>)
        ensures
            match res {
                Some(i) => i < self.groundings().len() && self.groundings()[i as int] == (fid, args@),
                None => !self.groundings().contains((fid, args@)),
            },
    {
        let mut k: usize = 0;
        while k < self.entries.len()
            invariant
                k <= self.entries@.len(),
                forall|j: int| 0 <= j < k ==> self.groundings()[j] != (fid, args@),
            decreases self.entries@.len() - k,
        {
            if self.entries[k].0 == fid && csts_eq(self.entries[k].1.as_slice(), args) {
                return Some(k);
            }
            k = k + 1;
        }
        None
    }

    /// The identifier of the state variable `fluent(state_var_grounding)`, interning the fluent
    /// and the state variable if they are new. Posting a known one gives its identifier back.
    pub fn post_ground_state_var(&mut self, fluent: &String, state_var_grounding: &[IntCst]) -> (res: StateVarGroundingId)
        requires
            old(self).wf(),
        ensures
            final(self).wf(),
            final(self).fluents() == if old(self).fluents().contains(fluent@) {
                old(self).fluents()
            } else {
                old(self).fluents().push(fluent@)
            },
            res < final(self).groundings().len(),
            final(self).groundings()[res as int].1 == state_var_grounding@,
            final(self).groundings()[res as int].0 < final(self).fluents().len(),
            final(self).fluents()[final(self).groundings()[res as int].0 as int] == fluent@,
            final(self).groundings() == if old(self).groundings().contains(final(self).groundings()[res as int]) {
                old(self).groundings()
            } else {
                old(self).groundings().push(final(self).groundings()[res as int])
            },
            res == if old(self).groundings().contains(final(self).groundings()[res as int]) {
                old(self).groundings().index_of(final(self).groundings()[res as int])
            } else {
                old(self).groundings().len() as int
            },
    {
        let ghost f0 = self.fluents();
        let ghost g0 = self.groundings();
        let fid = match self.find_fluent(fluent) {
            Some(i) => {
                assert(f0.contains(fluent@));
                i
            },
            None => {
                let i = self.fluents_ids.len();
                self.fluents_ids.push(fluent.clone());
                proof {
                    assert(self.fluents() =~= f0.push(fluent@));
                    assert forall|a: int, b: int| 0 <= a < b < self.fluents().len() implies self.fluents()[a] != self.fluents()[b] by {
                        if b == f0.len() {
                            assert(self.fluents()[a] == f0[a]);
                            assert(f0.contains(f0[a]));
                        }
                    }
                    assert(self.groundings() == g0);
                }
                i
            },
        };
        match self.find_grounding(fid, state_var_grounding) {
            Some(k) => {
                assert(g0.contains(g0[k as int]));
                proof {
                    let f = g0.index_of(g0[k as int]);
                    assert(0 <= f < g0.len() && g0[f] == g0[k as int]);
                }
                k
            },
            None => {
                let id = self.entries.len();
                let mut copy: Vec<IntCst> = Vec::new();
                let mut j: usize = 0;
                while j < state_var_grounding.len()
                    invariant
                        j <= state_var_grounding@.len(),
                        copy@ =~= state_var_grounding@.subrange(0, j as int),
                    decreases state_var_grounding@.len() - j,
                {
                    copy.push(state_var_grounding[j]);
                    j = j + 1;
                }
                assert(state_var_grounding@.subrange(0, j as int) =~= state_var_grounding@);
                let ghost f1 = self.fluents();
                self.entries.push((fid, copy));
                proof {
                    assert(self.fluents() == f1);
                    assert(self.groundings() =~= g0.push((fid, state_var_grounding@)));
                    assert forall|a: int, b: int| 0 <= a < b < self.groundings().len() implies self.groundings()[a] != self.groundings()[b] by {
                        if b == g0.len() {
                            assert(self.groundings()[a] == g0[a]);
                            assert(g0.contains(g0[a]));
                        }
                    }
                }
                id
            },
        }
    }
}


/// An integer term: a constant or a variable.
#[derive(Debug, Clone, Copy, PartialEq, Eq, Structural, PartialOrd, Ord, Hash)]
pub enum IntTerm {
    Cst(IntCst),
    Var(u32),
}

impl IntTerm {
    /// The constant `c`.
    pub fn int_cst(c: IntCst) -> (res: IntTerm)
        ensures
            res == IntTerm::Cst(c),
    {
        IntTerm::Cst(c)
    }

    /// Whether the term is a constant.
    pub fn is_cst(&self) -> (res: bool)
        ensures
            res == (*self is Cst),
    {
        match self {
            IntTerm::Cst(_) => true,
            IntTerm::Var(_) => false,
        }
    }
}

/// Identifier of a ground transition: the state variable grounding and the values assigned
/// to its value and operand (if any).
#[derive(Debug, Copy, Clone, PartialEq, Eq, Structural, PartialOrd, Ord, Hash)]
pub struct TransitionGroundingId {
    pub state_var_grounding_id: usize,
    pub val_assignment: Option<IntCst>,
    pub op_assignment: Option<IntCst>,
}

impl TransitionGroundingId {
    /// Whether the transition is a pure effect: an operand but no value.
    pub fn is_pure_eff(&self) -> (res: bool)
        ensures
            res == (self.op_assignment is Some && self.val_assignment is None),
    {
        self.op_assignment.is_some() && self.val_assignment.is_none()
    }
}

/// Whether `a` comes strictly before `b` in lexicographic order (same lengths).
pub open spec fn lex_lt(a: Seq<int>, b: Seq<int>) -> bool {
    exists|i: int| 0 <= i < a.len() && i < b.len() && a.subrange(0, i) == b.subrange(0, i) && #[trigger] a[i] < b[i]
}

fn lex_lt_exec(a: &Vec<i128>, b: &Vec<i128>) -> (res: bool)
    requires
        a@.len() == b@.len(),
    ensures
        res == lex_lt(a@.map_values(|x: i128| x as int), b@.map_values(|x: i128| x as int)),
{
    let ghost sa = a@.map_values(|x: i128| x as int);
    let ghost sb = b@.map_values(|x: i128| x as int);
    let mut i: usize = 0;
    while i < a.len()
        invariant
            i <= a@.len() == b@.len(),
            sa == a@.map_values(|x: i128| x as int),
            sb == b@.map_values(|x: i128| x as int),
            sa.subrange(0, i as int) == sb.subrange(0, i as int),
        decreases a@.len() - i,
    {
        if a[i] < b[i] {
            assert(sa[i as int] < sb[i as int]);
            return true;
        }
        if a[i] > b[i] {
            proof {
                assert forall|k: int| 0 <= k < sa.len() && k < sb.len() && sa.subrange(0, k) == sb.subrange(0, k) implies !(#[trigger] sa[k] < sb[k]) by {
                    if k < i {
                        assert(sa.subrange(0, i as int)[k] == sb.subrange(0, i as int)[k]);
                    } else if k > i {
                        assert(sa.subrange(0, k)[i as int] == sb.subrange(0, k)[i as int]);
                    }
                }
            }
            return false;
        }
        assert(sa.subrange(0, i + 1) =~= sb.subrange(0, i + 1)) by {
            assert(sa.subrange(0, i + 1) =~= sa.subrange(0, i as int).push(sa[i as int]));
            assert(sb.subrange(0, i + 1) =~= sb.subrange(0, i as int).push(sb[i as int]));
        }
        i = i + 1;
    }
    proof {
        assert forall|k: int| 0 <= k < sa.len() && k < sb.len() && sa.subrange(0, k) == sb.subrange(0, k) implies !(#[trigger] sa[k] < sb[k]) by {
            assert(sa.subrange(0, i as int)[k] == sb.subrange(0, i as int)[k]);
        }
    }
    false
}

/// Entries ordered by a key of integers, compared lexicographically.
pub trait Keyed: Sized {
    spec fn key(self) -> Seq<int>;

    /// Keys all have this length.
    spec fn key_len() -> nat;

    proof fn lemma_key(a: Self, b: Self)
        ensures
            a.key().len() == Self::key_len(),
            a.key() == b.key() ==> a == b;

    fn key_exec(&self) -> (res: Vec<i128>)
        ensures
            res@.map_values(|x: i128| x as int) == self.key();

    fn same(&self, other: &Self) -> (res: bool)
        ensures
            res == (*self == *other);
}

pub open spec fn opt_key(o: Option<IntCst>) -> Seq<int> {
    match o {
        Some(x) => seq![1int, x as int],
        None => seq![0int, 0int],
    }
}

pub open spec fn term_key(t: IntTerm) -> Seq<int> {
    match t {
        IntTerm::Cst(c) => seq![0int, c as int],
        IntTerm::Var(v) => seq![1int, v as int],
    }
}

pub open spec fn tgid_key(g: TransitionGroundingId) -> Seq<int> {
    seq![g.state_var_grounding_id as int] + opt_key(g.val_assignment) + opt_key(g.op_assignment)
}

pub open spec fn source_key(s: Source) -> Seq<int> {
    match s {
        Some(t) => seq![1int, t.id as int],
        None => seq![0int, 0int],
    }
}

pub(crate) fn push_opt(v: &mut Vec<i128>, o: Option<IntCst>)
    ensures
        final(v)@.map_values(|x: i128| x as int) == old(v)@.map_values(|x: i128| x as int) + opt_key(o),
{
    match o {
        Some(x) => {
            v.push(1);
            v.push(x as i128);
        },
        None => {
            v.push(0);
            v.push(0);
        },
    }
    assert(final(v)@.map_values(|x: i128| x as int) =~= old(v)@.map_values(|x: i128| x as int) + opt_key(o));
}

fn push_term(v: &mut Vec<i128>, t: IntTerm)
    ensures
        final(v)@.map_values(|x: i128| x as int) == old(v)@.map_values(|x: i128| x as int) + term_key(t),
{
    match t {
        IntTerm::Cst(c) => {
            v.push(0);
            v.push(c as i128);
        },
        IntTerm::Var(x) => {
            v.push(1);
            v.push(x as i128);
        },
    }
    assert(final(v)@.map_values(|x: i128| x as int) =~= old(v)@.map_values(|x: i128| x as int) + term_key(t));
}

pub(crate) fn push_one(v: &mut Vec<i128>, x: usize)
    ensures
        final(v)@.map_values(|y: i128| y as int) == old(v)@.map_values(|y: i128| y as int) + seq![x as int],
{
    v.push(x as i128);
    assert(final(v)@.map_values(|y: i128| y as int) =~= old(v)@.map_values(|y: i128| y as int) + seq![x as int]);
}

/// An assignment of a term in a ground transition.
pub type TransEntry = (IntTerm, IntCst, TransitionId, TransitionGroundingId);

/// An assignment of a term in a ground source.
pub type SourceEntry = (IntTerm, IntCst, Source, SourceGroundingId);

impl Keyed for (IntTerm, IntCst, TransitionId, TransitionGroundingId) {
    open spec fn key(self) -> Seq<int> {
        term_key(self.0) + seq![self.1 as int, self.2 as int] + tgid_key(self.3)
    }

    open spec fn key_len() -> nat {
        9
    }

    proof fn lemma_key(a: Self, b: Self) {
        if a.key() == b.key() {
            let ka = a.key();
            let kb = b.key();
            assert(ka[0] == kb[0] && ka[1] == kb[1] && ka[2] == kb[2] && ka[3] == kb[3]);
            assert(ka[4] == kb[4] && ka[5] == kb[5] && ka[6] == kb[6] && ka[7] == kb[7] && ka[8] == kb[8]);
        }
    }

    fn key_exec(&self) -> (res: Vec<i128>) {
        let mut v: Vec<i128> = Vec::new();
        assert(v@.map_values(|x: i128| x as int) =~= Seq::<int>::empty());
        push_term(&mut v, self.0);
        v.push(self.1 as i128);
        push_one(&mut v, self.2);
        push_one(&mut v, self.3.state_var_grounding_id);
        push_opt(&mut v, self.3.val_assignment);
        push_opt(&mut v, self.3.op_assignment);
        assert(v@.map_values(|x: i128| x as int) =~= self.key());
        v
    }

    fn same(&self, other: &Self) -> (res: bool) {
        self.0 == other.0 && self.1 == other.1 && self.2 == other.2 && self.3 == other.3
    }
}

impl Keyed for (IntTerm, IntCst, Source, SourceGroundingId) {
    open spec fn key(self) -> Seq<int> {
        term_key(self.0) + seq![self.1 as int] + source_key(self.2) + seq![self.3 as int]
    }

    open spec fn key_len() -> nat {
        6
    }

    proof fn lemma_key(a: Self, b: Self) {
        if a.key() == b.key() {
            let ka = a.key();
            let kb = b.key();
            assert(ka[0] == kb[0] && ka[1] == kb[1] && ka[2] == kb[2] && ka[3] == kb[3]);
            assert(ka[4] == kb[4] && ka[5] == kb[5]);
        }
    }

    fn key_exec(&self) -> (res: Vec<i128>) {
        let mut v: Vec<i128> = Vec::new();
        assert(v@.map_values(|x: i128| x as int) =~= Seq::<int>::empty());
        push_term(&mut v, self.0);
        v.push(self.1 as i128);
        match self.2 {
            Some(t) => {
                v.push(1);
                push_one(&mut v, t.id);
            },
            None => {
                v.push(0);
                v.push(0);
            },
        }
        push_one(&mut v, self.3);
        assert(v@.map_values(|x: i128| x as int) =~= self.key());
        v
    }

    fn same(&self, other: &Self) -> (res: bool) {
        self.0 == other.0 && self.1 == other.1 && self.2 == other.2 && self.3 == other.3
    }
}

/// `a` comes strictly before `b`.
pub open spec fn before<T: Keyed>(a: T, b: T) -> bool {
    lex_lt(a.key(), b.key())
}

pub(crate) fn before_exec<T: Keyed>(a: &T, b: &T) -> (res: bool)
    ensures
        res == before(*a, *b),
{
    proof {
        T::lemma_key(*a, *b);
        T::lemma_key(*b, *a);
    }
    let ka = a.key_exec();
    let kb = b.key_exec();
    proof {
        assert(ka@.len() == ka@.map_values(|x: i128| x as int).len());
        assert(kb@.len() == kb@.map_values(|x: i128| x as int).len());
    }
    lex_lt_exec(&ka, &kb)
}

/// Each element comes strictly before the ones after it.
pub open spec fn strictly_sorted<T: Keyed>(v: Seq<T>) -> bool {
    forall|i: int, j: int| 0 <= i < j < v.len() ==> before(#[trigger] v[i], #[trigger] v[j])
}

/// Lexicographic order is transitive.
pub proof fn lemma_lex_trans(a: Seq<int>, b: Seq<int>, c: Seq<int>)
    requires
        a.len() == b.len() == c.len(),
        lex_lt(a, b),
        lex_lt(b, c),
    ensures
        lex_lt(a, c),
{
    let i = choose|i: int| 0 <= i < a.len() && i < b.len() && a.subrange(0, i) == b.subrange(0, i) && #[trigger] a[i] < b[i];
    let j = choose|j: int| 0 <= j < b.len() && j < c.len() && b.subrange(0, j) == c.subrange(0, j) && #[trigger] b[j] < c[j];
    let m = if i < j { i } else { j };
    assert forall|k: int| 0 <= k < m implies a[k] == c[k] by {
        assert(a.subrange(0, i)[k] == b.subrange(0, i)[k]);
        assert(b.subrange(0, j)[k] == c.subrange(0, j)[k]);
    }
    assert(a.subrange(0, m) =~= c.subrange(0, m));
    if i < j {
        assert(b.subrange(0, j)[i] == c.subrange(0, j)[i]);
    } else if j < i {
        assert(a.subrange(0, i)[j] == b.subrange(0, i)[j]);
    }
    assert(a[m] < c[m]);
}

/// Lexicographic order is asymmetric (hence irreflexive).
pub proof fn lemma_lex_asym(a: Seq<int>, b: Seq<int>)
    requires
        a.len() == b.len(),
        lex_lt(a, b),
    ensures
        !lex_lt(b, a),
        a != b,
{
    let i = choose|i: int| 0 <= i < a.len() && i < b.len() && a.subrange(0, i) == b.subrange(0, i) && #[trigger] a[i] < b[i];
    assert forall|k: int| 0 <= k < b.len() && k < a.len() && b.subrange(0, k) == a.subrange(0, k) implies !(#[trigger] b[k] < a[k]) by {
        if k < i {
            assert(a.subrange(0, i)[k] == b.subrange(0, i)[k]);
        } else if k > i {
            assert(a.subrange(0, k)[i] == b.subrange(0, k)[i]);
        }
    }
}

proof fn lemma_lex_total_from(a: Seq<int>, b: Seq<int>, i: int)
    requires
        a.len() == b.len(),
        0 <= i <= a.len(),
        a.subrange(0, i) == b.subrange(0, i),
        a != b,
    ensures
        lex_lt(a, b) || lex_lt(b, a),
    decreases a.len() - i,
{
    if i == a.len() {
        assert(a =~= a.subrange(0, i));
        assert(b =~= b.subrange(0, i));
    } else if a[i] < b[i] {
        assert(lex_lt(a, b));
    } else if b[i] < a[i] {
        assert(lex_lt(b, a));
    } else {
        assert(a.subrange(0, i + 1) =~= a.subrange(0, i).push(a[i]));
        assert(b.subrange(0, i + 1) =~= b.subrange(0, i).push(b[i]));
        lemma_lex_total_from(a, b, i + 1);
    }
}

/// Lexicographic order is total on distinct sequences of the same length.
pub proof fn lemma_lex_total(a: Seq<int>, b: Seq<int>)
    requires
        a.len() == b.len(),
        a != b,
    ensures
        lex_lt(a, b) || lex_lt(b, a),
{
    assert(a.subrange(0, 0) =~= b.subrange(0, 0));
    lemma_lex_total_from(a, b, 0);
}


/// Whether each element comes strictly before the next one.
pub fn is_sorted_and_no_dupes<T: Keyed>(v: &[T]) -> (res: bool)
    ensures
        res == forall|i: int| 0 <= i < v@.len() - 1 ==> #[trigger] before(v@[i], v@[i + 1]),
{
    if v.len() == 0 {
        return true;
    }
    let mut i: usize = 0;
    while i < v.len() - 1
        invariant
            i + 1 <= v@.len(),
            forall|k: int| 0 <= k < i ==> #[trigger] before(v@[k], v@[k + 1]),
        decreases v@.len() - i,
    {
        if !before_exec(&v[i], &v[i + 1]) {
            return false;
        }
        i = i + 1;
    }
    true
}

/// Adds the elements of `pending` to the strictly sorted `merged`, keeping it strictly sorted
/// and without duplicates, and empties `pending`.
#[verifier::spinoff_prover]
pub(crate) fn merge_dedup_into<T: Keyed + Copy>(pending: &mut Vec<T>, merged: &mut Vec<T>)
    requires
        strictly_sorted(old(merged)@),
    ensures
        final(pending)@.len() == 0,
        strictly_sorted(final(merged)@),
        forall|e: T| final(merged)@.contains(e) <==> (old(merged)@.contains(e) || old(pending)@.contains(e)),
{
    let ghost m0 = merged@;
    let ghost p0 = pending@;
    let mut i: usize = 0;
    while i < pending.len()
        invariant
            i <= pending@.len(),
            pending@ == p0,
            strictly_sorted(merged@),
            forall|e: T| merged@.contains(e) <==> (m0.contains(e) || p0.subrange(0, i as int).contains(e)),
        decreases pending@.len() - i,
    {
        let x = pending[i];
        // first position whose element does not come before x
        let mut k: usize = 0;
        while k < merged.len() && before_exec(&merged[k], &x)
            invariant
                k <= merged@.len(),
                forall|j: int| 0 <= j < k ==> before(#[trigger] merged@[j], x),
            decreases merged@.len() - k,
        {
            k = k + 1;
        }
        let ghost mb = merged@;
        let present = k < merged.len() && merged[k].same(&x);
        if !present {
            merged.insert(k, x);
            proof {
                assert forall|a: int, b: int| 0 <= a < b < merged@.len() implies before(#[trigger] merged@[a], #[trigger] merged@[b]) by {
                    if k < mb.len() {
                        T::lemma_key(mb[k as int], x);
                        T::lemma_key(x, mb[k as int]);
                        if !before(x, mb[k as int]) {
                            if mb[k as int].key() != x.key() {
                                lemma_lex_total(mb[k as int].key(), x.key());
                            }
                        }
                        assert(before(x, mb[k as int]));
                    }
                    if a < k && b == k {
                    } else if a == k && b > k {
                        if b > k + 1 {
                            T::lemma_key(x, mb[k as int]);
                            T::lemma_key(mb[k as int], mb[b - 1]);
                            T::lemma_key(mb[b - 1], x);
                            lemma_lex_trans(x.key(), mb[k as int].key(), mb[b - 1].key());
                        }
                    } else if a < k && b > k {
                        assert(merged@[a] == mb[a]);
                        assert(merged@[b] == mb[b - 1]);
                    } else if a < k {
                        assert(merged@[a] == mb[a]);
                        assert(merged@[b] == mb[b]);
                    } else {
                        assert(merged@[a] == mb[a - 1]);
                        assert(merged@[b] == mb[b - 1]);
                    }
                }
                assert forall|e: T| merged@.contains(e) <==> (mb.contains(e) || e == x) by {
                    if merged@.contains(e) {
                        let w = choose|w: int| 0 <= w < merged@.len() && #[trigger] merged@[w] == e;
                        if w < k {
                            assert(mb[w] == e);
                        } else if w > k {
                            assert(mb[w - 1] == e);
                        }
                    }
                    if mb.contains(e) {
                        let w = choose|w: int| 0 <= w < mb.len() && #[trigger] mb[w] == e;
                        if w < k {
                            assert(merged@[w] == e);
                        } else {
                            assert(merged@[w + 1] == e);
                        }
                    }
                    if e == x {
                        assert(merged@[k as int] == e);
                    }
                }
            }
        } else {
            assert(merged@.contains(x)) by {
                assert(merged@[k as int] == x);
            }
        }
        proof {
            let s0 = p0.subrange(0, i as int);
            let s1 = p0.subrange(0, i + 1);
            assert(s1 =~= s0.push(x));
            assert forall|e: T| merged@.contains(e) <==> (m0.contains(e) || s1.contains(e)) by {
                vstd::seq_lib::lemma_seq_contains_after_push(s0, x, e);
            }
        }
        i = i + 1;
    }
    assert(p0.subrange(0, i as int) =~= p0);
    assert forall|e: T| merged@.contains(e) <==> (m0.contains(e) || p0.contains(e)) by {}
    pending.clear();
}

/// Assignments of terms in ground transitions and ground sources. Posted entries wait in a
/// buffer until `sort` merges them (sorted, without duplicates) with those already merged.
pub struct TermsGroundingsInfo {
    entries_merged_transitions: Vec<TransEntry>,
    entries_merged_sources: Vec<SourceEntry>,
    entries_pending_transitions: Vec<TransEntry>,
    entries_pending_sources: Vec<SourceEntry>,
}

impl TermsGroundingsInfo {
    pub closed spec fn merged_transitions(&self) -> Seq<TransEntry> {
        self.entries_merged_transitions@
    }

    pub closed spec fn merged_sources(&self) -> Seq<SourceEntry> {
        self.entries_merged_sources@
    }

    pub closed spec fn pending_transitions(&self) -> Seq<TransEntry> {
        self.entries_pending_transitions@
    }

    pub closed spec fn pending_sources(&self) -> Seq<SourceEntry> {
        self.entries_pending_sources@
    }

    /// The merged entries are strictly sorted.
    pub open spec fn wf(&self) -> bool {
        &&& strictly_sorted(self.merged_transitions())
        &&& strictly_sorted(self.merged_sources())
    }

    /// No entry.
    pub fn default() -> (res: TermsGroundingsInfo)
        ensures
            res.wf(),
            res.merged_transitions().len() == 0,
            res.merged_sources().len() == 0,
            res.pending_transitions().len() == 0,
            res.pending_sources().len() == 0,
    {
        TermsGroundingsInfo {
            entries_merged_transitions: Vec::new(),
            entries_merged_sources: Vec::new(),
            entries_pending_transitions: Vec::new(),
            entries_pending_sources: Vec::new(),
        }
    }

    /// Records that `term` takes `value` in the ground transition `(trans_id, trans_grounding_id)`;
    /// the term must not be a constant, and the entry not merged already.
    pub fn post_for_ground_transition(
        &mut self,
        term: IntTerm,
        value: IntCst,
        trans_id: TransitionId,
        trans_grounding_id: TransitionGroundingId,
    )
        requires
            !(term is Cst),
            !old(self).merged_transitions().contains((term, value, trans_id, trans_grounding_id)),
        ensures
            final(self).pending_transitions() == old(self).pending_transitions().push((term, value, trans_id, trans_grounding_id)),
            final(self).merged_transitions() == old(self).merged_transitions(),
            final(self).merged_sources() == old(self).merged_sources(),
            final(self).pending_sources() == old(self).pending_sources(),
    {
        self.entries_pending_transitions.push((term, value, trans_id, trans_grounding_id));
    }

    /// Records that `term` takes `value` in the ground source `(source, source_grounding_id)`;
    /// the term must not be a constant, and the entry not merged already.
    pub fn post_for_ground_source(
        &mut self,
        term: IntTerm,
        value: IntCst,
        source: Source,
        source_grounding_id: SourceGroundingId,
    )
        requires
            !(term is Cst),
            !old(self).merged_sources().contains((term, value, source, source_grounding_id)),
        ensures
            final(self).pending_sources() == old(self).pending_sources().push((term, value, source, source_grounding_id)),
            final(self).merged_transitions() == old(self).merged_transitions(),
            final(self).merged_sources() == old(self).merged_sources(),
            final(self).pending_transitions() == old(self).pending_transitions(),
    {
        self.entries_pending_sources.push((term, value, source, source_grounding_id));
    }

    /// Merges the pending entries with the merged ones.
    pub fn sort(&mut self)
        requires
            old(self).wf(),
        ensures
            final(self).wf(),
            final(self).pending_transitions().len() == 0,
            final(self).pending_sources().len() == 0,
            forall|e: TransEntry| final(self).merged_transitions().contains(e) <==> (old(self).merged_transitions().contains(e)
                || old(self).pending_transitions().contains(e)),
            forall|e: SourceEntry| final(self).merged_sources().contains(e) <==> (old(self).merged_sources().contains(e)
                || old(self).pending_sources().contains(e)),
    {
        merge_dedup_into(&mut self.entries_pending_transitions, &mut self.entries_merged_transitions);
        merge_dedup_into(&mut self.entries_pending_sources, &mut self.entries_merged_sources);
    }

    /// All entries of ground transitions, sorted (once no entry is pending).
    pub fn iter_sorted_all_for_transitions(&self) -> (res: &[TransEntry])
        requires
            self.pending_transitions().len() == 0,
        ensures
            res@ == self.merged_transitions(),
    {
        self.entries_merged_transitions.as_slice()
    }

    /// All entries of ground sources, sorted (once no entry is pending).
    pub fn iter_sorted_all_for_sources(&self) -> (res: &[SourceEntry])
        requires
            self.pending_sources().len() == 0,
        ensures
            res@ == self.merged_sources(),
    {
        self.entries_merged_sources.as_slice()
    }

    /// The assignments `(term, value)` of the entries of ground sources, in order, each one once
    /// (consecutive repeats removed).
    pub fn iter_sorted_all_only_assignments(&self) -> (res: Vec<(IntTerm, IntCst)>)
        requires
            self.pending_sources().len() == 0,
        ensures
            res@ == dedup_consecutive(self.merged_sources().map_values(|e: SourceEntry| (e.0, e.1))),
    {
        let ghost all = self.merged_sources().map_values(|e: SourceEntry| (e.0, e.1));
        let mut res: Vec<(IntTerm, IntCst)> = Vec::new();
        let mut i: usize = 0;
        while i < self.entries_merged_sources.len()
            invariant
                i <= self.entries_merged_sources@.len(),
                all == self.merged_sources().map_values(|e: SourceEntry| (e.0, e.1)),
                res@ == dedup_consecutive(all.subrange(0, i as int)),
            decreases self.entries_merged_sources@.len() - i,
        {
            let e = self.entries_merged_sources[i];
            let a = (e.0, e.1);
            proof {
                assert(all.subrange(0, i + 1).drop_last() =~= all.subrange(0, i as int));
                assert(all.subrange(0, i + 1).last() == a);
            }
            if i == 0 {
                res.push(a);
            } else {
                let p = self.entries_merged_sources[i - 1];
                proof {
                    assert(all.subrange(0, i as int).last() == (p.0, p.1));
                }
                if !(p.0 == a.0 && p.1 == a.1) {
                    res.push(a);
                }
            }
            i = i + 1;
        }
        assert(all.subrange(0, i as int) =~= all);
        res
    }
}

/// The sequence without consecutive repeats.
pub open spec fn dedup_consecutive<A>(s: Seq<A>) -> Seq<A>
    decreases s.len(),
{
    if s.len() == 0 {
        s
    } else if s.len() >= 2 && s[s.len() - 2] == s.last() {
        dedup_consecutive(s.drop_last())
    } else {
        dedup_consecutive(s.drop_last()).push(s.last())
    }
}

} // verus!
