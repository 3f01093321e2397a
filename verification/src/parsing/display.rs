//! The printed forms of domains, problems and their parts.
use vstd::prelude::*;
use crate::input::{str_chars, string_of_chars};
use crate::parsing::sexpr::{SExpr, Sym, display};
use crate::parsing::pddl::{TypedSymbol, Predicate, Function, TaskDef, Task, Method, Action, DurativeAction, Domain, Problem};

verus! {

/// The printed forms `items`, separated by `sep`.
pub open spec fn joined(items: Seq<Seq<char>>, sep: Seq<char>) -> Seq<char>
    decreases items.len(),
{
    if items.len() == 0 {
        seq![]
    } else if items.len() == 1 {
        items[0]
    } else {
        joined(items.drop_last(), sep) + sep + items.last()
    }
}

/// Something with a printed form.
pub trait Printable: Sized {
    /// The printed form.
    spec fn disp(&self) -> Seq<char>;

    /// Appends the printed form to `out`.
    fn write_to(&self, out: &mut Vec<char>)
        ensures
            final(out)@ == old(out)@ + self.disp(),
    ;
}

/// The printed forms of `items`.
pub open spec fn disps<T: Printable>(items: Seq<T>) -> Seq<Seq<char>> {
    items.map_values(|x: T| x.disp())
}

/// Appends the characters of `s` to `out`.
fn push_text(out: &mut Vec<char>, s: &str)
    ensures
        final(out)@ == old(out)@ + s@,
{
    let c = str_chars(s);
    push_chars(out, c.as_slice());
}

/// Appends the characters `c` to `out`.
fn push_chars(out: &mut Vec<char>, c: &[char])
    ensures
        final(out)@ == old(out)@ + c@,
{
    let ghost base = out@;
    let mut i: usize = 0;
    while i < c.len()
        invariant
            i <= c@.len(),
            out@ == base + c@.take(i as int),
        decreases c@.len() - i,
    {
        out.push(c[i]);
        assert(out@ =~= base + c@.take(i + 1));
        i = i + 1;
    }
    assert(c@.take(i as int) =~= c@);
}

/// Appends the printed forms of `items`, separated by `sep`, to `out`.
fn write_joined<T: Printable>(out: &mut Vec<char>, items: &[T], sep: &str)
    ensures
        final(out)@ == old(out)@ + joined(disps(items@), sep@),
{
    let ghost base = out@;
    let mut i: usize = 0;
    while i < items.len()
        invariant
            i <= items@.len(),
            out@ == base + joined(disps(items@.take(i as int)), sep@),
        decreases items@.len() - i,
    {
        let ghost before = out@;
        if i > 0 {
            push_text(out, sep);
        }
        items[i].write_to(out);
        proof {
            let d = disps(items@.take(i + 1));
            assert(d.drop_last() =~= disps(items@.take(i as int)));
            assert(d.last() == items@[i as int].disp());
            if i == 0 {
                assert(disps(items@.take(0)) =~= Seq::<Seq<char>>::empty());
                assert(d.len() == 1);
                assert(out@ =~= base + joined(d, sep@));
            } else {
                assert(out@ =~= base + joined(d, sep@));
            }
        }
        i = i + 1;
    }
    assert(items@.take(i as int) =~= items@);
}

impl Printable for Sym {
    open spec fn disp(&self) -> Seq<char> {
        self.chars@
    }

    fn write_to(&self, out: &mut Vec<char>) {
        push_chars(out, self.chars.as_slice());
    }
}

impl Printable for SExpr {
    open spec fn disp(&self) -> Seq<char> {
        display(self@)
    }

    fn write_to(&self, out: &mut Vec<char>) {
        SExpr::write_to(self, out);
    }
}

impl Printable for TypedSymbol {
    /// The symbol, then `: ` and its type if it has one.
    open spec fn disp(&self) -> Seq<char> {
        match self.tpe {
            Some(t) => self.symbol.disp() + ": "@ + t.disp(),
            None => self.symbol.disp(),
        }
    }

    fn write_to(&self, out: &mut Vec<char>) {
        self.symbol.write_to(out);
        match &self.tpe {
            Some(t) => {
                push_text(out, ": ");
                t.write_to(out);
            },
            None => {},
        }
    }
}

/// The printed form of a name with typed parameters: `name(a: t, b: u)`.
pub open spec fn signature_disp(name: Sym, args: Seq<TypedSymbol>) -> Seq<char> {
    name.disp() + "("@ + joined(disps(args), ", "@) + ")"@
}

/// Appends the printed form of a name with typed parameters to `out`.
fn write_signature(out: &mut Vec<char>, name: &Sym, args: &Vec<TypedSymbol>)
    ensures
        final(out)@ == old(out)@ + signature_disp(*name, args@),
{
    name.write_to(out);
    push_text(out, "(");
    write_joined(out, args.as_slice(), ", ");
    push_text(out, ")");
}

impl Printable for Predicate {
    open spec fn disp(&self) -> Seq<char> {
        signature_disp(self.name, self.args@)
    }

    fn write_to(&self, out: &mut Vec<char>) {
        write_signature(out, &self.name, &self.args);
    }
}

impl Printable for Function {
    open spec fn disp(&self) -> Seq<char> {
        signature_disp(self.name, self.args@)
    }

    fn write_to(&self, out: &mut Vec<char>) {
        write_signature(out, &self.name, &self.args);
    }
}

impl Printable for TaskDef {
    open spec fn disp(&self) -> Seq<char> {
        signature_disp(self.name, self.args@)
    }

    fn write_to(&self, out: &mut Vec<char>) {
        write_signature(out, &self.name, &self.args);
    }
}

impl Printable for Action {
    open spec fn disp(&self) -> Seq<char> {
        signature_disp(self.name, self.args@)
    }

    fn write_to(&self, out: &mut Vec<char>) {
        write_signature(out, &self.name, &self.args);
    }
}

impl Printable for DurativeAction {
    open spec fn disp(&self) -> Seq<char> {
        signature_disp(self.name, self.args@)
    }

    fn write_to(&self, out: &mut Vec<char>) {
        write_signature(out, &self.name, &self.args);
    }
}

impl Printable for Task {
    /// `(name a b)`.
    open spec fn disp(&self) -> Seq<char> {
        "("@ + self.name.disp() + " "@ + joined(disps(self.arguments@), " "@) + ")"@
    }

    fn write_to(&self, out: &mut Vec<char>) {
        push_text(out, "(");
        self.name.write_to(out);
        push_text(out, " ");
        write_joined(out, self.arguments.as_slice(), " ");
        push_text(out, ")");
    }
}

impl Printable for Method {
    /// The name of the method.
    open spec fn disp(&self) -> Seq<char> {
        self.name.disp()
    }

    fn write_to(&self, out: &mut Vec<char>) {
        self.name.write_to(out);
    }
}

/// The printed form of a domain: its name, then its types, predicates, functions, tasks,
/// methods, actions and durative actions, each section under a title, one item per line.
pub open spec fn domain_disp(d: Domain) -> Seq<char> {
    "# Domain : "@ + d.name.disp() + "\n# Types \n  "@ + joined(disps(d.types@), "\n  "@) + "\n# Predicates \n  "@ + joined(
        disps(d.predicates@),
        "\n  "@,
    ) + "\n# Functions \n  "@ + joined(disps(d.functions@), "\n  "@) + "\n# Tasks \n  "@ + joined(disps(d.tasks@), "\n  "@)
        + "\n# Methods \n  "@ + joined(disps(d.methods@), "\n  "@) + "\n# Actions \n  "@ + joined(disps(d.actions@), "\n  "@)
        + "\n# Durative Actions \n  "@ + joined(disps(d.durative_actions@), "\n  "@)
}

/// Each task on a line of its own, indented by two spaces.
pub open spec fn task_lines(ts: Seq<Task>) -> Seq<char>
    decreases ts.len(),
{
    if ts.len() == 0 {
        seq![]
    } else {
        task_lines(ts.drop_last()) + "  "@ + ts.last().disp() + "\n"@
    }
}

/// The printed form of a problem: its name and domain, then its objects, initial state and
/// goals, each section under a title, one item per line, and its tasks (ordered, then
/// unordered), if it has a task network.
pub open spec fn problem_disp(p: Problem) -> Seq<char> {
    "# Problem "@ + p.problem_name.disp() + " (domain: "@ + p.domain_name.disp() + ")"@ + "\n# Objects \n  "@ + joined(
        disps(p.objects@),
        "\n  "@,
    ) + "\n# Init \n  "@ + joined(disps(p.init@), "\n  "@) + "\n# Goal \n  "@ + joined(disps(p.goal@), "\n  "@) + match p.task_network {
        Some(tn) => "\n# Tasks \n"@ + task_lines(tn.ordered_tasks@ + tn.unordered_tasks@),
        None => seq![],
    }
}

/// Appends each task on a line of its own, indented by two spaces.
fn write_task_lines(out: &mut Vec<char>, ts: &Vec<Task>)
    ensures
        final(out)@ == old(out)@ + task_lines(ts@),
{
    let ghost base = out@;
    let mut i: usize = 0;
    while i < ts.len()
        invariant
            i <= ts@.len(),
            out@ == base + task_lines(ts@.take(i as int)),
        decreases ts@.len() - i,
    {
        push_text(out, "  ");
        ts[i].write_to(out);
        push_text(out, "\n");
        proof {
            assert(ts@.take(i + 1).drop_last() =~= ts@.take(i as int));
            assert(out@ =~= base + task_lines(ts@.take(i + 1)));
        }
        i = i + 1;
    }
    assert(ts@.take(i as int) =~= ts@);
}

/// Lines of tasks of two lists are those of the first list, then of the second.
proof fn lemma_task_lines(a: Seq<Task>, b: Seq<Task>)
    ensures
        task_lines(a + b) == task_lines(a) + task_lines(b),
    decreases b.len(),
{
    if b.len() == 0 {
        assert(a + b =~= a);
    } else {
        lemma_task_lines(a, b.drop_last());
        assert((a + b).drop_last() =~= a + b.drop_last());
    }
}

impl Domain {
    /// The printed form of the domain (`domain_disp`).
    pub fn to_string(&self) -> (res: String)
        ensures
            res@ == domain_disp(*self),
    {
        let mut out: Vec<char> = Vec::new();
        push_text(&mut out, "# Domain : ");
        self.name.write_to(&mut out);
        push_text(&mut out, "\n# Types \n  ");
        write_joined(&mut out, self.types.as_slice(), "\n  ");
        push_text(&mut out, "\n# Predicates \n  ");
        write_joined(&mut out, self.predicates.as_slice(), "\n  ");
        push_text(&mut out, "\n# Functions \n  ");
        write_joined(&mut out, self.functions.as_slice(), "\n  ");
        push_text(&mut out, "\n# Tasks \n  ");
        write_joined(&mut out, self.tasks.as_slice(), "\n  ");
        push_text(&mut out, "\n# Methods \n  ");
        write_joined(&mut out, self.methods.as_slice(), "\n  ");
        push_text(&mut out, "\n# Actions \n  ");
        write_joined(&mut out, self.actions.as_slice(), "\n  ");
        push_text(&mut out, "\n# Durative Actions \n  ");
        write_joined(&mut out, self.durative_actions.as_slice(), "\n  ");
        assert(out@ =~= domain_disp(*self));
        string_of_chars(out.as_slice())
    }
}

impl Problem {
    /// The printed form of the problem (`problem_disp`).
    pub fn to_string(&self) -> (res: String)
        ensures
            res@ == problem_disp(*self),
    {
        let mut out: Vec<char> = Vec::new();
        push_text(&mut out, "# Problem ");
        self.problem_name.write_to(&mut out);
        push_text(&mut out, " (domain: ");
        self.domain_name.write_to(&mut out);
        push_text(&mut out, ")");
        push_text(&mut out, "\n# Objects \n  ");
        write_joined(&mut out, self.objects.as_slice(), "\n  ");
        push_text(&mut out, "\n# Init \n  ");
        write_joined(&mut out, self.init.as_slice(), "\n  ");
        push_text(&mut out, "\n# Goal \n  ");
        write_joined(&mut out, self.goal.as_slice(), "\n  ");
        let ghost before = out@;
        match &self.task_network {
            Some(tn) => {
                push_text(&mut out, "\n# Tasks \n");
                write_task_lines(&mut out, &tn.ordered_tasks);
                write_task_lines(&mut out, &tn.unordered_tasks);
                proof {
                    lemma_task_lines(tn.ordered_tasks@, tn.unordered_tasks@);
                }
            },
            None => {},
        }
        assert(out@ =~= problem_disp(*self));
        string_of_chars(out.as_slice())
    }
}

/// The printed form of a typed symbol, predicate, function, task, method or action.
pub fn to_string<T: Printable>(x: &T) -> (res: String)
    ensures
        res@ == x.disp(),
{
    let mut out: Vec<char> = Vec::new();
    x.write_to(&mut out);
    assert(out@ =~= x.disp());
    string_of_chars(out.as_slice())
}

} // verus!
