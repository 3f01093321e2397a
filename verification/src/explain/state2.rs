use vstd::prelude::*;
use crate::classical::state::Op;

verus! {

/// Links an operator to the step of the plan at which it is applied.
#[derive(Debug, Clone, Copy, PartialEq, Eq, Structural, PartialOrd, Ord)]
pub struct Resume {
    opkey: Option<Op>,
    etape: i32,
}

impl Resume {
    /// Operator of this step (none for a goal or for the default record).
    pub closed spec fn spec_op(&self) -> Option<Op> {
        self.opkey
    }

    /// Number of the step.
    pub closed spec fn spec_numero(&self) -> i32 {
        self.etape
    }

    /// Operator applied at this step, if any (goals and defaults have none).
    pub fn op(&self) -> (res: Option<Op>)
        ensures
            res == self.spec_op(),
    {
        self.opkey
    }

    /// Number of the step.
    pub fn numero(&self) -> (res: i32)
        ensures
            res == self.spec_numero(),
    {
        self.etape
    }

    /// The record of operator `op` at step `num`.
    pub closed spec fn spec_new(op: Option<Op>, num: i32) -> Resume {
        Resume { opkey: op, etape: num }
    }

    /// What a record built by `spec_new` holds.
    pub proof fn lemma_spec_new(op: Option<Op>, num: i32)
        ensures
            Resume::spec_new(op, num).spec_op() == op,
            Resume::spec_new(op, num).spec_numero() == num,
    {
    }

    /// Records of applied operators are equal exactly when their operators and steps are; a
    /// goal record (no operator) never equals one of them, and goal records are equal
    /// exactly when their steps are.
    pub proof fn lemma_records_distinct(o1: Op, n1: i32, o2: Op, n2: i32, g1: i32, g2: i32)
        ensures
            (Resume::spec_new(Some(o1), n1) == Resume::spec_new(Some(o2), n2)) <==> (o1 == o2 && n1 == n2),
            Resume::spec_new(None, g1) != Resume::spec_new(Some(o1), n1),
            (Resume::spec_new(None, g1) == Resume::spec_new(None, g2)) <==> g1 == g2,
    {
    }

    /// Two records are equal exactly when their operator and step are.
    pub proof fn lemma_eq_fields(a: Resume, b: Resume)
        ensures
            (a == b) <==> (a.spec_op() == b.spec_op() && a.spec_numero() == b.spec_numero()),
    {
    }
}

/// Step `num` of the plan, at which `ope` is applied.
pub fn newresume(ope: Op, num: i32) -> (res: Resume)
    ensures
        res == Resume::spec_new(Some(ope), num),
        res.spec_op() == Some(ope),
        res.spec_numero() == num,
{
    Resume { opkey: Some(ope), etape: num }
}

/// The default record: no operator, step -1.
pub fn defaultresume() -> (res: Resume)
    ensures
        res == Resume::spec_new(None, -1i32),
        res.spec_op() == None::<Op>,
        res.spec_numero() == -1,
{
    Resume { opkey: None, etape: -1 }
}

/// Record standing for a goal reached at step `num` (no operator).
pub fn goalresume(num: i32) -> (res: Resume)
    ensures
        res == Resume::spec_new(None, num),
        res.spec_op() == None::<Op>,
        res.spec_numero() == num,
{
    Resume { opkey: None, etape: num }
}

/// Whether a step is necessary, with the path of steps that makes it so.
#[derive(Debug, Clone, PartialEq, Eq, PartialOrd, Ord)]
pub struct Necessaire {
    operateur: Resume,
    nec: bool,
    chemin: Option<Vec<Resume>>,
    longueur: u32,
}

impl Necessaire {
    pub closed spec fn spec_opnec(&self) -> Resume {
        self.operateur
    }

    pub closed spec fn spec_nec(&self) -> bool {
        self.nec
    }

    /// The path, as a sequence of step records.
    pub closed spec fn spec_chemin(&self) -> Option<Seq<Resume>> {
        match self.chemin {
            Some(v) => Some(v@),
            None => None,
        }
    }

    pub closed spec fn spec_long(&self) -> u32 {
        self.longueur
    }

    /// The step concerned.
    pub fn opnec(&self) -> (res: Resume)
        ensures
            res == self.spec_opnec(),
    {
        self.operateur
    }

    /// Whether the step is necessary.
    pub fn nec(&self) -> (res: bool)
        ensures
            res == self.spec_nec(),
    {
        self.nec
    }

    /// A copy of the path, if any.
    pub fn chemin(&self) -> (res: Option<Vec<Resume>>)
        ensures
            match res {
                Some(v) => self.spec_chemin() == Some(v@),
                None => self.spec_chemin() is None,
            },
    {
        match &self.chemin {
            Some(v) => {
                let c = v.clone();
                assert(c@ =~= v@);
                Some(c)
            },
            None => None,
        }
    }

    /// Length of the path.
    pub fn long(&self) -> (res: u32)
        ensures
            res == self.spec_long(),
    {
        self.longueur
    }

    /// A record with the same step, necessity, path and length.
    pub fn copy(&self) -> (res: Necessaire)
        ensures
            res.spec_opnec() == self.spec_opnec(),
            res.spec_nec() == self.spec_nec(),
            res.spec_chemin() == self.spec_chemin(),
            res.spec_long() == self.spec_long(),
    {
        Necessaire { operateur: self.operateur, nec: self.nec, chemin: self.chemin(), longueur: self.longueur }
    }

    /// Whether this record is about the step `res`.
    pub fn presence(&self, res: Resume) -> (b: bool)
        ensures
            b == (self.spec_opnec() == res),
    {
        self.operateur == res
    }
}

/// A record for step `op`, necessary or not according to `b`, with path `way` of length `l`.
pub fn newnec(op: Resume, b: bool, way: Vec<Resume>, l: u32) -> (res: Necessaire)
    ensures
        res.spec_opnec() == op,
        res.spec_nec() == b,
        res.spec_chemin() == Some(way@),
        res.spec_long() == l,
{
    Necessaire { operateur: op, chemin: Some(way), nec: b, longueur: l }
}

/// A goal: necessary, without path, of length 0.
pub fn newnecgoal(op: Resume) -> (res: Necessaire)
    ensures
        res.spec_opnec() == op,
        res.spec_nec(),
        res.spec_chemin() is None,
        res.spec_long() == 0,
{
    Necessaire { operateur: op, nec: true, chemin: None, longueur: 0 }
}

/// A step that is not necessary, without path, of length 0.
pub fn newnecess(op: Resume) -> (res: Necessaire)
    ensures
        res.spec_opnec() == op,
        !res.spec_nec(),
        res.spec_chemin() is None,
        res.spec_long() == 0,
{
    Necessaire { operateur: op, nec: false, chemin: None, longueur: 0 }
}

/// Initial record of a shortest-path search: not necessary, no path, length `inf`.
pub fn initnec(op: Resume, inf: u32) -> (res: Necessaire)
    ensures
        res.spec_opnec() == op,
        !res.spec_nec(),
        res.spec_chemin() is None,
        res.spec_long() == inf,
{
    Necessaire { operateur: op, nec: false, chemin: None, longueur: inf }
}

/// Whether an operator occurs only once in a plan.
#[derive(Debug, Clone, Copy, PartialEq, Eq, Structural, PartialOrd, Ord)]
pub struct Unique {
    operateur: Op,
    unicite: bool,
}

impl Unique {
    pub closed spec fn spec_operateur(&self) -> Op {
        self.operateur
    }

    pub closed spec fn spec_unicite(&self) -> bool {
        self.unicite
    }

    /// The operator.
    pub fn operateur(&self) -> (res: Op)
        ensures
            res == self.spec_operateur(),
    {
        self.operateur
    }

    /// Whether it has been seen only once.
    pub fn unicite(&self) -> (res: bool)
        ensures
            res == self.spec_unicite(),
    {
        self.unicite
    }

    /// Marks the operator as occurring more than once.
    pub fn duplicite(&mut self)
        ensures
            final(self).spec_operateur() == old(self).spec_operateur(),
            !final(self).spec_unicite(),
    {
        self.unicite = false;
    }
}

/// A fresh record: the operator is (so far) unique.
pub fn newunique(ope: Op) -> (res: Unique)
    ensures
        res.spec_operateur() == ope,
        res.spec_unicite(),
{
    Unique { operateur: ope, unicite: true }
}

/// Two steps of a plan that cannot be swapped.
pub struct Obligationtemp {
    ope1: Op,
    etape1: i32,
    ope2: Op,
    etape2: i32,
}

impl Obligationtemp {
    pub closed spec fn spec_operateur(&self) -> (Op, Op) {
        (self.ope1, self.ope2)
    }

    pub closed spec fn spec_etape(&self) -> (i32, i32) {
        (self.etape1, self.etape2)
    }

    /// The two operators, in the order they were given.
    pub fn operateur(&self) -> (res: (Op, Op))
        ensures
            res == self.spec_operateur(),
    {
        (self.ope1, self.ope2)
    }

    /// The two step numbers, in the order they were given.
    pub fn etape(&self) -> (res: (i32, i32))
        ensures
            res == self.spec_etape(),
    {
        (self.etape1, self.etape2)
    }

    /// The step that comes first: the first one given if it is strictly earlier, else the second.
    pub fn premiereetape(&self) -> (res: (Op, i32))
        ensures
            res == (if self.spec_etape().1 > self.spec_etape().0 {
                (self.spec_operateur().0, self.spec_etape().0)
            } else {
                (self.spec_operateur().1, self.spec_etape().1)
            }),
    {
        if self.etape2 > self.etape1 {
            (self.ope1, self.etape1)
        } else {
            (self.ope2, self.etape2)
        }
    }

    /// The step that comes last: the first one given if it is strictly later, else the second.
    pub fn deuxiemeetape(&self) -> (res: (Op, i32))
        ensures
            res == (if self.spec_etape().0 > self.spec_etape().1 {
                (self.spec_operateur().0, self.spec_etape().0)
            } else {
                (self.spec_operateur().1, self.spec_etape().1)
            }),
    {
        if self.etape1 > self.etape2 {
            (self.ope1, self.etape1)
        } else {
            (self.ope2, self.etape2)
        }
    }
}

/// Steps `step` (operator `ope`) and `next` (operator `oper`) cannot be swapped.
pub fn newot(ope: Op, step: i32, oper: Op, next: i32) -> (res: Obligationtemp)
    ensures
        res.spec_operateur() == (ope, oper),
        res.spec_etape() == (step, next),
{
    Obligationtemp { ope1: ope, etape1: step, ope2: oper, etape2: next }
}

/// Whether two steps can be run in parallel, and if not, why.
#[allow(non_camel_case_types)]
#[derive(PartialEq, Eq, Structural)]
pub enum Parallelisable {
    Oui,
    Non_menace { origine: usize, vers: usize },
    Non_support { origine: usize, vers: usize },
}

/// Whether two steps can be run in parallel, with the details of why not.
#[allow(non_camel_case_types)]
pub enum Parallelisabledetail {
    Oui,
    Menace_Apres { origine: usize, vers: usize },
    Menace_Avant { origine: usize, vers: usize, supportconcern: Option<usize> },
    Support_Direct { origine: usize, vers: usize },
    Support_Indirect { origine: usize, vers: usize, chemin: Vec<Resume> },
}

/// Origin step of a non-parallelisable pair, 0 when the steps are parallelisable.
pub fn originenonp(p: Parallelisable) -> (res: usize)
    ensures
        res == match p {
            Parallelisable::Non_menace { origine, .. } => origine,
            Parallelisable::Non_support { origine, .. } => origine,
            Parallelisable::Oui => 0,
        },
{
    match p {
        Parallelisable::Non_menace { origine, vers: _ } => origine,
        Parallelisable::Non_support { origine, vers: _ } => origine,
        _ => 0,
    }
}

/// Target step of a non-parallelisable pair, 0 when the steps are parallelisable.
pub fn ciblenonp(p: Parallelisable) -> (res: usize)
    ensures
        res == match p {
            Parallelisable::Non_menace { vers, .. } => vers,
            Parallelisable::Non_support { vers, .. } => vers,
            Parallelisable::Oui => 0,
        },
{
    match p {
        Parallelisable::Non_menace { origine: _, vers } => vers,
        Parallelisable::Non_support { origine: _, vers } => vers,
        _ => 0,
    }
}

/// Origin step of a detailed non-parallelisable pair, 0 when parallelisable.
pub fn originenonpad(p: Parallelisabledetail) -> (res: usize)
    ensures
        res == match p {
            Parallelisabledetail::Menace_Apres { origine, .. } => origine,
            Parallelisabledetail::Menace_Avant { origine, .. } => origine,
            Parallelisabledetail::Support_Direct { origine, .. } => origine,
            Parallelisabledetail::Support_Indirect { origine, .. } => origine,
            Parallelisabledetail::Oui => 0,
        },
{
    match p {
        Parallelisabledetail::Menace_Apres { origine, .. } => origine,
        Parallelisabledetail::Menace_Avant { origine, .. } => origine,
        Parallelisabledetail::Support_Direct { origine, .. } => origine,
        Parallelisabledetail::Support_Indirect { origine, .. } => origine,
        _ => 0,
    }
}

/// Target step of a detailed non-parallelisable pair, 0 when parallelisable.
pub fn ciblenonpad(p: Parallelisabledetail) -> (res: usize)
    ensures
        res == match p {
            Parallelisabledetail::Menace_Apres { vers, .. } => vers,
            Parallelisabledetail::Menace_Avant { vers, .. } => vers,
            Parallelisabledetail::Support_Direct { vers, .. } => vers,
            Parallelisabledetail::Support_Indirect { vers, .. } => vers,
            Parallelisabledetail::Oui => 0,
        },
{
    match p {
        Parallelisabledetail::Menace_Apres { vers, .. } => vers,
        Parallelisabledetail::Menace_Avant { vers, .. } => vers,
        Parallelisabledetail::Support_Direct { vers, .. } => vers,
        Parallelisabledetail::Support_Indirect { vers, .. } => vers,
        _ => 0,
    }
}

/// Step numbers of a path, as they are converted by `pad_detail` (a negative step wraps as `as usize` does).
pub open spec fn steps_of_path(chemin: Seq<Resume>) -> Seq<Option<usize>> {
    chemin.map_values(|r: Resume| Some(r.spec_numero() as usize))
}

/// Supplementary detail: the concerned support of a threat before, the steps of an indirect
/// support, and `[None]` otherwise.
pub fn pad_detail(p: Parallelisabledetail) -> (res: Vec<Option<usize>>)
    ensures
        res@ == match p {
            Parallelisabledetail::Menace_Avant { supportconcern, .. } => seq![supportconcern],
            Parallelisabledetail::Support_Indirect { chemin, .. } => steps_of_path(chemin@),
            _ => seq![None],
        },
{
    match p {
        Parallelisabledetail::Menace_Avant { origine: _, vers: _, supportconcern } => {
            let mut n = Vec::new();
            n.push(supportconcern);
            n
        },
        Parallelisabledetail::Support_Indirect { origine: _, vers: _, chemin } => {
            let mut v: Vec<Option<usize>> = Vec::new();
            let mut k: usize = 0;
            while k < chemin.len()
                invariant
                    k <= chemin.len(),
                    v@ =~= steps_of_path(chemin@.subrange(0, k as int)),
                decreases chemin.len() - k,
            {
                let i = chemin[k].numero() as usize;
                v.push(Some(i));
                k = k + 1;
                assert(chemin@.subrange(0, k as int) =~= chemin@.subrange(0, k - 1).push(chemin@[k - 1]));
            }
            assert(chemin@.subrange(0, chemin.len() as int) =~= chemin@);
            v
        },
        _ => {
            let mut v = Vec::new();
            v.push(None);
            v
        },
    }
}

} // verus!
