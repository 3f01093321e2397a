//! Reading of PDDL and HDDL domains and problems from s-expressions.
use vstd::prelude::*;
use crate::input::{Pos, Span, Loc, ErrLoc, ErrV, Input, ascii_text, err_at, err_ctx, string_of, str_chars};
use crate::parsing::sexpr::{
    SExpr, SExprV, Sym, SymV, ListIter, seq_view, spec_loc, lemma_seq_view, lemma_seq_view_drop_first,
    chars_eq, pop_v, pop_atom_v, pop_list_v, pop_known_atom_v, spec_parse, parse_input,
};

verus! {

/// A requirement that a PDDL domain may declare.
#[derive(Debug, Copy, Clone, PartialEq, Eq, Structural)]
pub enum PddlFeature {
    Strips,
    Typing,
    Equality,
    NegativePreconditions,
    Hierarchy,
    MethodPreconditions,
    DurativeAction,
    Fluents,
}

/// The feature declared by the keyword `s`, if any.
pub open spec fn feature_named(s: Seq<char>) -> Option<PddlFeature> {
    if s == ":strips"@ {
        Some(PddlFeature::Strips)
    } else if s == ":typing"@ {
        Some(PddlFeature::Typing)
    } else if s == ":equality"@ {
        Some(PddlFeature::Equality)
    } else if s == ":negative-preconditions"@ {
        Some(PddlFeature::NegativePreconditions)
    } else if s == ":hierarchy"@ {
        Some(PddlFeature::Hierarchy)
    } else if s == ":method-preconditions"@ {
        Some(PddlFeature::MethodPreconditions)
    } else if s == ":durative-actions"@ {
        Some(PddlFeature::DurativeAction)
    } else if s == ":fluents"@ {
        Some(PddlFeature::Fluents)
    } else {
        None
    }
}

/// How a feature is printed.
pub open spec fn feature_text(f: PddlFeature) -> Seq<char> {
    match f {
        PddlFeature::Strips => ":strips"@,
        PddlFeature::Typing => ":typing"@,
        PddlFeature::Equality => ":equality"@,
        PddlFeature::NegativePreconditions => ":negative-preconditions"@,
        PddlFeature::Hierarchy => ":hierarchy"@,
        PddlFeature::MethodPreconditions => ":method-preconditions"@,
        PddlFeature::DurativeAction => ":durative-action"@,
        PddlFeature::Fluents => ":fluents"@,
    }
}

/// Reading back the printed form of a feature gives the feature, for every feature but
/// `DurativeAction`, which is printed `:durative-action` and read from `:durative-actions`:
/// `from_str` of what `to_string` gives (its `feature_text`) is `Ok(f)`, since `from_str`
/// returns `Ok` of `feature_named` of its text.
pub proof fn lemma_feature_roundtrip(f: PddlFeature)
    requires
        f != PddlFeature::DurativeAction,
    ensures
        feature_named(feature_text(f)) == Some(f),
{
    reveal_strlit(":strips");
    reveal_strlit(":typing");
    reveal_strlit(":equality");
    reveal_strlit(":negative-preconditions");
    reveal_strlit(":hierarchy");
    reveal_strlit(":method-preconditions");
    reveal_strlit(":durative-actions");
    reveal_strlit(":fluents");
    let t = feature_text(f);
    assert(t.len() != ":strips"@.len() || t[1] != 's' ==> t != ":strips"@);
    assert(t.len() != ":typing"@.len() || t[1] != 't' ==> t != ":typing"@);
    assert(t.len() != ":equality"@.len() || t[1] != 'e' ==> t != ":equality"@);
    assert(t.len() != ":negative-preconditions"@.len() || t[1] != 'n' ==> t != ":negative-preconditions"@);
    assert(t.len() != ":hierarchy"@.len() || t[1] != 'h' ==> t != ":hierarchy"@);
    assert(t.len() != ":method-preconditions"@.len() || t[1] != 'm' ==> t != ":method-preconditions"@);
    assert(t.len() != ":durative-actions"@.len() ==> t != ":durative-actions"@);
}

/// The printed form of `DurativeAction` is read as no feature.
pub proof fn lemma_durative_action_text()
    ensures
        feature_named(feature_text(PddlFeature::DurativeAction)) is None,
{
    reveal_strlit(":strips");
    reveal_strlit(":typing");
    reveal_strlit(":equality");
    reveal_strlit(":negative-preconditions");
    reveal_strlit(":hierarchy");
    reveal_strlit(":method-preconditions");
    reveal_strlit(":durative-actions");
    reveal_strlit(":durative-action");
    reveal_strlit(":fluents");
    let t = feature_text(PddlFeature::DurativeAction);
    assert(t.len() == 16);
}

/// Whether the text of `s` is `lit`.
pub(crate) fn str_is(s: &str, lit: &str) -> (res: bool)
    ensures
        res == (s@ == lit@),
{
    let a = str_chars(s);
    let b = str_chars(lit);
    chars_eq(a.as_slice(), b.as_slice())
}

impl PddlFeature {
    /// The feature declared by the keyword `s`; an error naming it if there is none.
    pub fn from_str(s: &str) -> (res: Result<PddlFeature, String>)
        ensures
            match feature_named(s@) {
                Some(f) => res == Ok::<PddlFeature, String>(f),
                None => res matches Err(m) && m@ == "Unknown feature `"@ + s@ + "`"@,
            },
    {
        if str_is(s, ":strips") {
            Ok(PddlFeature::Strips)
        } else if str_is(s, ":typing") {
            Ok(PddlFeature::Typing)
        } else if str_is(s, ":equality") {
            Ok(PddlFeature::Equality)
        } else if str_is(s, ":negative-preconditions") {
            Ok(PddlFeature::NegativePreconditions)
        } else if str_is(s, ":hierarchy") {
            Ok(PddlFeature::Hierarchy)
        } else if str_is(s, ":method-preconditions") {
            Ok(PddlFeature::MethodPreconditions)
        } else if str_is(s, ":durative-actions") {
            Ok(PddlFeature::DurativeAction)
        } else if str_is(s, ":fluents") {
            Ok(PddlFeature::Fluents)
        } else {
            let mut m = string_of("Unknown feature `");
            m.append(s);
            m.append("`");
            Err(m)
        }
    }

    /// How the feature is printed.
    pub fn to_string(&self) -> (res: String)
        ensures
            res@ == feature_text(*self),
    {
        match self {
            PddlFeature::Strips => string_of(":strips"),
            PddlFeature::Typing => string_of(":typing"),
            PddlFeature::Equality => string_of(":equality"),
            PddlFeature::NegativePreconditions => string_of(":negative-preconditions"),
            PddlFeature::Hierarchy => string_of(":hierarchy"),
            PddlFeature::MethodPreconditions => string_of(":method-preconditions"),
            PddlFeature::DurativeAction => string_of(":durative-action"),
            PddlFeature::Fluents => string_of(":fluents"),
        }
    }
}

/// A symbol with an optional type.
#[derive(Debug, Clone)]
pub struct TypedSymbol {
    pub symbol: Sym,
    pub tpe: Option<Sym>,
}

/// Mathematical value of a typed symbol.
pub type TypedSymbolV = (SymV, Option<SymV>);

/// Value of an optional symbol.
pub open spec fn opt_sym_view(o: Option<Sym>) -> Option<SymV> {
    match o {
        Some(s) => Some(s@),
        None => None,
    }
}

/// Values of a sequence of symbols.
pub open spec fn syms_view(s: Seq<Sym>) -> Seq<SymV> {
    s.map_values(|x: Sym| x@)
}

/// Values of a sequence of typed symbols.
pub open spec fn typed_view(s: Seq<TypedSymbol>) -> Seq<TypedSymbolV> {
    s.map_values(|x: TypedSymbol| x@)
}

impl View for TypedSymbol {
    type V = TypedSymbolV;

    open spec fn view(&self) -> TypedSymbolV {
        (self.symbol@, opt_sym_view(self.tpe))
    }
}

impl TypedSymbol {
    /// The symbol `symbol` of type `tpe`.
    pub fn new(symbol: Sym, tpe: Sym) -> (res: TypedSymbol)
        ensures
            res@ == (symbol@, Some(tpe@)),
    {
        TypedSymbol { symbol, tpe: Some(tpe) }
    }
}

/// The symbols `untyped`, each given the type `tpe`.
pub open spec fn with_type(untyped: Seq<SymV>, tpe: Option<SymV>) -> Seq<TypedSymbolV> {
    untyped.map_values(|s: SymV| (s, tpe))
}

/// Reading of a typed list of symbols, from the elements `elems` left in a list that ends at
/// `end`, after `args` were read and while the symbols `untyped` wait for a type.
pub open spec fn typed_symbols_from(
    elems: Seq<SExprV>,
    end: Pos,
    args: Seq<TypedSymbolV>,
    untyped: Seq<SymV>,
) -> Result<Seq<TypedSymbolV>, ErrV>
    decreases elems.len(),
{
    if elems.len() == 0 {
        Ok(args + with_type(untyped, None))
    } else {
        match elems[0] {
            SExprV::List(_, span) => Err(err_at("Expected an atom"@, Some(Loc { span }))),
            SExprV::Atom(c, loc) => if c == "-"@ {
                if elems.len() == 1 {
                    Err(err_at("Expected an atom but got end of list."@, Some(Loc { span: Span::spec_point(end) })))
                } else {
                    match elems[1] {
                        SExprV::List(_, span) => Err(err_at("Expected an atom"@, Some(Loc { span }))),
                        SExprV::Atom(t, tl) => typed_symbols_from(
                            elems.skip(2),
                            end,
                            args + with_type(untyped, Some((t, tl))),
                            seq![],
                        ),
                    }
                }
            } else {
                typed_symbols_from(elems.drop_first(), end, args, untyped.push((c, loc)))
            },
        }
    }
}

/// Reading of a typed list of symbols: `a b - t c` gives `a` and `b` of type `t`, and `c`
/// without a type.
pub open spec fn typed_symbols(elems: Seq<SExprV>, end: Pos) -> Result<Seq<TypedSymbolV>, ErrV> {
    typed_symbols_from(elems, end, seq![], seq![])
}

/// Appends to `args` the symbols `untyped`, each with the type `tpe`.
fn push_with_type(args: &mut Vec<TypedSymbol>, untyped: &Vec<Sym>, tpe: Option<&Sym>)
    ensures
        typed_view(final(args)@) == typed_view(old(args)@) + with_type(
            syms_view(untyped@),
            match tpe {
                Some(t) => Some(t@),
                None => None,
            },
        ),
{
    let ghost tv: Option<SymV> = match tpe {
        Some(t) => Some(t@),
        None => None,
    };
    let ghost a0 = typed_view(args@);
    let mut i: usize = 0;
    while i < untyped.len()
        invariant
            i <= untyped@.len(),
            tv == match tpe {
                Some(t) => Some(t@),
                None => None::<SymV>,
            },
            typed_view(args@) == a0 + with_type(syms_view(untyped@.subrange(0, i as int)), tv),
        decreases untyped@.len() - i,
    {
        let t = match tpe {
            Some(t) => Some(t.copy()),
            None => None,
        };
        let ghost before = args@;
        args.push(TypedSymbol { symbol: untyped[i].copy(), tpe: t });
        proof {
            assert(typed_view(args@) =~= typed_view(before).push(args@.last()@));
            assert(syms_view(untyped@.subrange(0, i + 1)) =~= syms_view(untyped@.subrange(0, i as int)).push(untyped@[i as int]@));
            assert(with_type(syms_view(untyped@.subrange(0, i + 1)), tv) =~= with_type(syms_view(untyped@.subrange(0, i as int)), tv).push((untyped@[i as int]@, tv)));
        }
        i = i + 1;
    }
    assert(untyped@.subrange(0, i as int) =~= untyped@);
}

/// Consumes a typed list of symbols:
///  - `(a - loc b - loc c - loc)`: symbols a, b and c of type loc
///  - `(a b c - loc)`: symbols a, b and c of type loc
///  - `(a b c)`: symbols a, b and c without a type
fn consume_typed_symbols(input: &mut ListIter) -> (res: Result<Vec<TypedSymbol>, ErrLoc>)
    ensures
        final(input).span == old(input).span,
        match typed_symbols(seq_view(old(input).elems@), old(input).span.end) {
            Ok(v) => res matches Ok(r) && typed_view(r@) == v && final(input).elems@.len() == 0,
            Err(e) => res matches Err(er) && er@ == e,
        },
{
    let ghost end = input.span.end;
    let ghost all = seq_view(input.elems@);
    let mut args: Vec<TypedSymbol> = Vec::new();
    let mut untyped: Vec<Sym> = Vec::new();
    proof {
        assert(typed_view(args@) =~= Seq::<TypedSymbolV>::empty());
        assert(syms_view(untyped@) =~= Seq::<SymV>::empty());
    }
    while !input.is_empty()
        invariant
            input.span == old(input).span,
            end == old(input).span.end,
            all == seq_view(old(input).elems@),
            typed_symbols_from(seq_view(input.elems@), end, typed_view(args@), syms_view(untyped@))
                == typed_symbols(all, end),
        decreases input.elems@.len(),
    {
        let ghost rest = input.elems@;
        proof {
            lemma_seq_view_drop_first(rest);
        }
        let next = match input.pop_atom() {
            Ok(a) => a,
            Err(e) => return Err(e),
        };
        if next.is("-") {
            proof {
                if rest.len() > 1 {
                    lemma_seq_view_drop_first(rest.drop_first());
                    assert(rest.drop_first().drop_first() =~= rest.skip(2));
                    assert(seq_view(rest).skip(2) =~= seq_view(rest).drop_first().drop_first());
                }
            }
            let tpe = match input.pop_atom() {
                Ok(a) => a,
                Err(e) => return Err(e),
            };
            push_with_type(&mut args, &untyped, Some(tpe));
            untyped = Vec::new();
            proof {
                assert(syms_view(untyped@) =~= Seq::<SymV>::empty());
            }
        } else {
            let ghost u0 = untyped@;
            untyped.push(next.copy());
            proof {
                assert(syms_view(untyped@) =~= syms_view(u0).push(next@));
            }
        }
    }
    push_with_type(&mut args, &untyped, None);
    Ok(args)
}


/// `pre` before the sequence of `r`, if `r` is one.
pub open spec fn prepend_ok<A>(pre: Seq<A>, r: Result<Seq<A>, ErrV>) -> Result<Seq<A>, ErrV> {
    match r {
        Ok(s) => Ok(pre + s),
        Err(x) => Err(x),
    }
}

/// A task, as it appears in a task network: an optional identifier (used to refer to the task
/// in ordering constraints), a name and arguments.
#[derive(Debug, Clone)]
pub struct Task {
    pub id: Option<Sym>,
    pub name: Sym,
    pub arguments: Vec<Sym>,
    pub source: Option<Loc>,
}

/// Mathematical value of a task.
pub struct TaskV {
    pub id: Option<SymV>,
    pub name: SymV,
    pub arguments: Seq<SymV>,
    pub source: Option<Loc>,
}

impl View for Task {
    type V = TaskV;

    open spec fn view(&self) -> TaskV {
        TaskV {
            id: opt_sym_view(self.id),
            name: self.name@,
            arguments: syms_view(self.arguments@),
            source: self.source,
        }
    }
}

/// Values of a sequence of tasks.
pub open spec fn tasks_view(s: Seq<Task>) -> Seq<TaskV> {
    s.map_values(|t: Task| t@)
}

/// Reading of the parameters of a task: each one must be an atom.
pub open spec fn task_args(elems: Seq<SExprV>) -> Result<Seq<SymV>, ErrV>
    decreases elems.len(),
{
    if elems.len() == 0 {
        Ok(seq![])
    } else {
        match elems[0] {
            SExprV::List(_, span) => Err(err_at("Invalid task parameter"@, Some(Loc { span }))),
            SExprV::Atom(c, l) => prepend_ok(seq![(c, l)], task_args(elems.drop_first())),
        }
    }
}

/// Reading of a task `(name args...)`; where `allow_id`, also `(id (name args...))`.
pub open spec fn task_v(e: SExprV, allow_id: bool) -> Result<TaskV, ErrV>
    decreases (if allow_id { 1int } else { 0int }),
{
    match e {
        SExprV::Atom(_, loc) => Err(err_at("Expected a task name"@, loc)),
        SExprV::List(l, span) => match pop_atom_v(l, span.end) {
            Err(x) => Err(x),
            Ok(head) => {
                let rest = l.drop_first();
                if rest.len() == 0 {
                    Ok(TaskV { id: None, name: head, arguments: seq![], source: Some(Loc { span }) })
                } else {
                    match rest[0] {
                        SExprV::Atom(..) => match task_args(rest) {
                            Ok(args) => Ok(TaskV { id: None, name: head, arguments: args, source: Some(Loc { span }) }),
                            Err(x) => Err(x),
                        },
                        SExprV::List(..) => if allow_id {
                            match task_v(rest[0], false) {
                                Ok(t) => Ok(TaskV { id: Some(head), source: Some(Loc { span }), ..t }),
                                Err(x) => Err(x),
                            }
                        } else {
                            Err(err_at("Expected a task (without an id)"@, Some(Loc { span })))
                        },
                    }
                }
            },
        },
    }
}

/// Reads a task `(name args...)`; where `allow_id`, also `(id (name args...))`.
fn parse_task(e: &SExpr, allow_id: bool) -> (res: Result<Task, ErrLoc>)
    ensures
        match task_v(e@, allow_id) {
            Ok(t) => res matches Ok(r) && r@ == t,
            Err(x) => res matches Err(er) && er@ == x,
        },
    decreases (if allow_id { 1int } else { 0int }),
{
    let mut list = match e.as_list_iter() {
        Some(l) => l,
        None => return Err(e.invalid(string_of("Expected a task name"))),
    };
    let head = match list.pop_atom() {
        Ok(a) => a.copy(),
        Err(x) => return Err(x),
    };
    proof {
        lemma_seq_view(list.elems@);
    }
    match list.peek() {
        None => {
            let args: Vec<Sym> = Vec::new();
            assert(syms_view(args@) =~= Seq::<SymV>::empty());
            Ok(Task { id: None, name: head, arguments: args, source: e.loc() })
        },
        Some(first) => match first {
            SExpr::Atom(_) => {
                let ghost full = list.rest();
                let mut args: Vec<Sym> = Vec::new();
                assert(syms_view(args@) + task_args(full)->Ok_0 =~= task_args(full)->Ok_0);
                assert(task_v(e@, allow_id) == match task_args(full) {
                    Ok(a) => Ok(TaskV { id: None, name: head@, arguments: a, source: spec_loc(e@) }),
                    Err(x) => Err(x),
                });
                while !list.is_empty()
                    invariant
                        task_v(e@, allow_id) == match task_args(full) {
                            Ok(a) => Ok(TaskV { id: None, name: head@, arguments: a, source: spec_loc(e@) }),
                            Err(x) => Err(x),
                        },
                        task_args(full) == prepend_ok(syms_view(args@), task_args(list.rest())),
                    decreases list.elems@.len(),
                {
                    let ghost r0 = list.elems@;
                    let ghost a0 = args@;
                    proof {
                        lemma_seq_view_drop_first(r0);
                    }
                    let arg = match list.next() {
                        Some(a) => a,
                        None => return Err(e.invalid(string_of("Expected a task name"))),
                    };
                    match arg.as_atom() {
                        Some(p) => {
                            args.push(p.copy());
                            proof {
                                assert(syms_view(args@) =~= syms_view(a0) + seq![p@]);
                                match task_args(list.rest()) {
                                    Ok(r) => {
                                        assert(syms_view(a0) + (seq![p@] + r) =~= syms_view(args@) + r);
                                    },
                                    Err(_) => {},
                                }
                            }
                        },
                        None => return Err(arg.invalid(string_of("Invalid task parameter"))),
                    }
                }
                assert(syms_view(args@) + Seq::<SymV>::empty() =~= syms_view(args@));
                Ok(Task { id: None, name: head, arguments: args, source: e.loc() })
            },
            SExpr::List(_) => {
                if allow_id {
                    let t = match parse_task(first, false) {
                        Ok(t) => t,
                        Err(x) => return Err(x),
                    };
                    Ok(Task { id: Some(head), name: t.name, arguments: t.arguments, source: e.loc() })
                } else {
                    Err(e.invalid(string_of("Expected a task (without an id)")))
                }
            },
        },
    }
}

/// Reading of each element of `s` with `item`, in order; the first error stops it.
pub open spec fn all_items<A>(s: Seq<SExprV>, item: spec_fn(SExprV) -> Result<A, ErrV>) -> Result<Seq<A>, ErrV>
    decreases s.len(),
{
    if s.len() == 0 {
        Ok(seq![])
    } else {
        match item(s[0]) {
            Err(x) => Err(x),
            Ok(a) => prepend_ok(seq![a], all_items(s.drop_first(), item)),
        }
    }
}

/// Reading of one of `T`, `()` or `(and T T ...)`, where `item` reads a `T`.
pub open spec fn conjunction<A>(e: SExprV, item: spec_fn(SExprV) -> Result<A, ErrV>) -> Result<Seq<A>, ErrV> {
    match e {
        SExprV::Atom(..) => match item(e) {
            Ok(a) => Ok(seq![a]),
            Err(x) => Err(x),
        },
        SExprV::List(l, _) => if l.len() > 0 && (l[0] matches SExprV::Atom(h, _) && h == "and"@) {
            all_items(l.drop_first(), item)
        } else if l.len() == 0 {
            Ok(seq![])
        } else {
            match item(e) {
                Ok(a) => Ok(seq![a]),
                Err(x) => Err(x),
            }
        },
    }
}

/// Reads a conjunction of tasks (each may have an identifier).
fn parse_task_conjunction(e: &SExpr) -> (res: Result<Vec<Task>, ErrLoc>)
    ensures
        match conjunction(e@, |x: SExprV| task_v(x, true)) {
            Ok(ts) => res matches Ok(r) && tasks_view(r@) == ts,
            Err(x) => res matches Err(er) && er@ == x,
        },
{
    let ghost item = |x: SExprV| task_v(x, true);
    match e {
        SExpr::List(l) => {
            if let Some(conjuncts) = e.as_application("and") {
                let ghost full = seq_view(conjuncts@);
                proof {
                    lemma_seq_view(l.list@);
                    lemma_seq_view(conjuncts@);
                    assert(full =~= seq_view(l.list@).drop_first());
                }
                let mut result: Vec<Task> = Vec::new();
                let mut i: usize = 0;
                assert(tasks_view(result@) + all_items(full, item)->Ok_0 =~= all_items(full, item)->Ok_0);
                assert(seq_view(conjuncts@).skip(0) =~= full);
                assert(conjunction(e@, item) == all_items(full, item));
                while i < conjuncts.len()
                    invariant
                        i <= conjuncts@.len(),
                        full == seq_view(conjuncts@),
                        item == (|x: SExprV| task_v(x, true)),
                        conjunction(e@, item) == all_items(full, item),
                        all_items(full, item) == prepend_ok(tasks_view(result@), all_items(full.skip(i as int), item)),
                    decreases conjuncts@.len() - i,
                {
                    proof {
                        lemma_seq_view(conjuncts@);
                        assert(full.skip(i as int)[0] == conjuncts@[i as int]@);
                        assert(full.skip(i as int).drop_first() =~= full.skip(i + 1));
                    }
                    let t = match parse_task(&conjuncts[i], true) {
                        Ok(t) => t,
                        Err(x) => return Err(x),
                    };
                    let ghost r0 = result@;
                    result.push(t);
                    proof {
                        assert(tasks_view(result@) =~= tasks_view(r0) + seq![t@]);
                        match all_items(full.skip(i + 1), item) {
                            Ok(r) => {
                                assert(tasks_view(r0) + (seq![t@] + r) =~= tasks_view(result@) + r);
                            },
                            Err(_) => {},
                        }
                    }
                    i = i + 1;
                }
                assert(full.skip(i as int) =~= Seq::<SExprV>::empty());
                assert(tasks_view(result@) + Seq::<TaskV>::empty() =~= tasks_view(result@));
                Ok(result)
            } else if l.list.len() == 0 {
                let result: Vec<Task> = Vec::new();
                assert(tasks_view(result@) =~= Seq::<TaskV>::empty());
                Ok(result)
            } else {
                proof {
                    lemma_seq_view(l.list@);
                }
                let t = match parse_task(e, true) {
                    Ok(t) => t,
                    Err(x) => return Err(x),
                };
                let result = vec![t];
                assert(tasks_view(result@) =~= seq![t@]);
                Ok(result)
            }
        },
        SExpr::Atom(_) => {
            let t = match parse_task(e, true) {
                Ok(t) => t,
                Err(x) => return Err(x),
            };
            let result = vec![t];
            assert(tasks_view(result@) =~= seq![t@]);
            Ok(result)
        },
    }
}

/// Constraint that the task identified by `first_task_id` ends before the one identified by
/// `second_task_id`.
#[derive(Debug, Clone)]
pub struct TaskOrdering {
    pub first_task_id: Sym,
    pub second_task_id: Sym,
    pub source: Option<Loc>,
}

/// Mathematical value of an ordering constraint: the two identifiers and the location.
pub type TaskOrderingV = (SymV, SymV, Option<Loc>);

impl View for TaskOrdering {
    type V = TaskOrderingV;

    open spec fn view(&self) -> TaskOrderingV {
        (self.first_task_id@, self.second_task_id@, self.source)
    }
}

/// Values of a sequence of ordering constraints.
pub open spec fn orderings_view(s: Seq<TaskOrdering>) -> Seq<TaskOrderingV> {
    s.map_values(|o: TaskOrdering| o@)
}

/// Reading of an ordering constraint `(< ID1 ID2)`.
pub open spec fn ordering_v(e: SExprV) -> Result<TaskOrderingV, ErrV> {
    match e {
        SExprV::Atom(_, loc) => Err(err_at("Expected ordering constraint of the form: '(< ID1 ID2)`"@, loc)),
        SExprV::List(l, span) => match pop_known_atom_v(l, span.end, "<"@) {
            Err(x) => Err(x),
            Ok(_) => match pop_atom_v(l.drop_first(), span.end) {
                Err(x) => Err(x),
                Ok(first) => match pop_atom_v(l.skip(2), span.end) {
                    Err(x) => Err(x),
                    Ok(second) => if l.len() > 3 {
                        Err(err_at("Expected end of list"@, spec_loc(l[3])))
                    } else {
                        Ok((first, second, Some(Loc { span })))
                    },
                },
            },
        },
    }
}

/// Reads an ordering constraint `(< ID1 ID2)`.
fn parse_ordering(e: &SExpr) -> (res: Result<TaskOrdering, ErrLoc>)
    ensures
        match ordering_v(e@) {
            Ok(o) => res matches Ok(r) && r@ == o,
            Err(x) => res matches Err(er) && er@ == x,
        },
{
    let mut l = match e.as_list_iter() {
        Some(l) => l,
        None => return Err(e.invalid(string_of("Expected ordering constraint of the form: '(< ID1 ID2)`"))),
    };
    let ghost all = l.rest();
    match l.pop_known_atom("<") {
        Ok(_) => {},
        Err(x) => return Err(x),
    }
    let first_task_id = match l.pop_atom() {
        Ok(a) => a.copy(),
        Err(x) => return Err(x),
    };
    proof {
        assert(all.drop_first().drop_first() =~= all.skip(2));
    }
    let second_task_id = match l.pop_atom() {
        Ok(a) => a.copy(),
        Err(x) => return Err(x),
    };
    let ghost r3 = l.elems@;
    if let Some(unexpected) = l.next() {
        proof {
            lemma_seq_view_drop_first(r3);
            assert(all.skip(2).drop_first() =~= all.skip(3));
            assert(all[3] == all.skip(3)[0]);
        }
        return Err(unexpected.invalid(string_of("Expected end of list")));
    }
    proof {
        lemma_seq_view(r3);
        assert(all.skip(2).drop_first() =~= seq_view(r3));
    }
    Ok(TaskOrdering { first_task_id, second_task_id, source: Some(l.loc()) })
}

/// Reads a conjunction of ordering constraints.
fn parse_ordering_conjunction(e: &SExpr) -> (res: Result<Vec<TaskOrdering>, ErrLoc>)
    ensures
        match conjunction(e@, |x: SExprV| ordering_v(x)) {
            Ok(os) => res matches Ok(r) && orderings_view(r@) == os,
            Err(x) => res matches Err(er) && er@ == x,
        },
{
    let ghost item = |x: SExprV| ordering_v(x);
    match e {
        SExpr::List(l) => {
            if let Some(conjuncts) = e.as_application("and") {
                let ghost full = seq_view(conjuncts@);
                proof {
                    lemma_seq_view(l.list@);
                    lemma_seq_view(conjuncts@);
                    assert(full =~= seq_view(l.list@).drop_first());
                }
                let mut result: Vec<TaskOrdering> = Vec::new();
                let mut i: usize = 0;
                assert(orderings_view(result@) + all_items(full, item)->Ok_0 =~= all_items(full, item)->Ok_0);
                assert(seq_view(conjuncts@).skip(0) =~= full);
                assert(conjunction(e@, item) == all_items(full, item));
                while i < conjuncts.len()
                    invariant
                        i <= conjuncts@.len(),
                        full == seq_view(conjuncts@),
                        item == (|x: SExprV| ordering_v(x)),
                        conjunction(e@, item) == all_items(full, item),
                        all_items(full, item) == prepend_ok(orderings_view(result@), all_items(full.skip(i as int), item)),
                    decreases conjuncts@.len() - i,
                {
                    proof {
                        lemma_seq_view(conjuncts@);
                        assert(full.skip(i as int)[0] == conjuncts@[i as int]@);
                        assert(full.skip(i as int).drop_first() =~= full.skip(i + 1));
                    }
                    let o = match parse_ordering(&conjuncts[i]) {
                        Ok(o) => o,
                        Err(x) => return Err(x),
                    };
                    let ghost r0 = result@;
                    result.push(o);
                    proof {
                        assert(orderings_view(result@) =~= orderings_view(r0) + seq![o@]);
                        match all_items(full.skip(i + 1), item) {
                            Ok(r) => {
                                assert(orderings_view(r0) + (seq![o@] + r) =~= orderings_view(result@) + r);
                            },
                            Err(_) => {},
                        }
                    }
                    i = i + 1;
                }
                assert(full.skip(i as int) =~= Seq::<SExprV>::empty());
                assert(orderings_view(result@) + Seq::<TaskOrderingV>::empty() =~= orderings_view(result@));
                Ok(result)
            } else if l.list.len() == 0 {
                let result: Vec<TaskOrdering> = Vec::new();
                assert(orderings_view(result@) =~= Seq::<TaskOrderingV>::empty());
                Ok(result)
            } else {
                proof {
                    lemma_seq_view(l.list@);
                }
                let o = match parse_ordering(e) {
                    Ok(o) => o,
                    Err(x) => return Err(x),
                };
                let result = vec![o];
                assert(orderings_view(result@) =~= seq![o@]);
                Ok(result)
            }
        },
        SExpr::Atom(_) => {
            let o = match parse_ordering(e) {
                Ok(o) => o,
                Err(x) => return Err(x),
            };
            let result = vec![o];
            assert(orderings_view(result@) =~= seq![o@]);
            Ok(result)
        },
    }
}


/// A network of tasks: ordered tasks, unordered tasks, and ordering constraints between them.
#[derive(Debug, Clone)]
pub struct TaskNetwork {
    pub ordered_tasks: Vec<Task>,
    pub unordered_tasks: Vec<Task>,
    pub orderings: Vec<TaskOrdering>,
}

/// Mathematical value of a task network.
pub struct TaskNetworkV {
    pub ordered_tasks: Seq<TaskV>,
    pub unordered_tasks: Seq<TaskV>,
    pub orderings: Seq<TaskOrderingV>,
}

impl View for TaskNetwork {
    type V = TaskNetworkV;

    open spec fn view(&self) -> TaskNetworkV {
        TaskNetworkV {
            ordered_tasks: tasks_view(self.ordered_tasks@),
            unordered_tasks: tasks_view(self.unordered_tasks@),
            orderings: orderings_view(self.orderings@),
        }
    }
}

/// The task network without any task or constraint.
pub open spec fn empty_network() -> TaskNetworkV {
    TaskNetworkV { ordered_tasks: seq![], unordered_tasks: seq![], orderings: seq![] }
}

impl TaskNetwork {
    /// The task network without any task or constraint.
    pub fn default() -> (res: TaskNetwork)
        ensures
            res@ == empty_network(),
    {
        let res = TaskNetwork { ordered_tasks: Vec::new(), unordered_tasks: Vec::new(), orderings: Vec::new() };
        assert(res@.ordered_tasks =~= Seq::<TaskV>::empty());
        assert(res@.unordered_tasks =~= Seq::<TaskV>::empty());
        assert(res@.orderings =~= Seq::<TaskOrderingV>::empty());
        res
    }
}

/// Reading of the keys and values `elems` left in a task network definition (the list ends at
/// `end`), once `tn` was read.
pub open spec fn task_network_from(elems: Seq<SExprV>, end: Pos, tn: TaskNetworkV) -> Result<TaskNetworkV, ErrV>
    decreases elems.len(),
{
    if elems.len() == 0 {
        Ok(tn)
    } else {
        match pop_atom_v(elems, end) {
            Err(x) => Err(x),
            Ok(key) => {
                let rest = elems.drop_first();
                let k = key.0;
                if k == ":ordered-tasks"@ || k == ":ordered-subtasks"@ {
                    if tn.ordered_tasks.len() > 0 {
                        Err(err_at("More than one set of ordered tasks."@, key.1))
                    } else {
                        match pop_v(rest, end) {
                            Err(x) => Err(x),
                            Ok(v) => match conjunction(v, |x: SExprV| task_v(x, true)) {
                                Err(x) => Err(x),
                                Ok(ts) => task_network_from(rest.drop_first(), end, TaskNetworkV { ordered_tasks: ts, ..tn }),
                            },
                        }
                    }
                } else if k == ":tasks"@ || k == ":subtasks"@ {
                    if tn.unordered_tasks.len() > 0 {
                        Err(err_at("More than one set of unordered tasks."@, key.1))
                    } else {
                        match pop_v(rest, end) {
                            Err(x) => Err(x),
                            Ok(v) => match conjunction(v, |x: SExprV| task_v(x, true)) {
                                Err(x) => Err(x),
                                Ok(ts) => task_network_from(rest.drop_first(), end, TaskNetworkV { unordered_tasks: ts, ..tn }),
                            },
                        }
                    }
                } else if k == ":ordering"@ {
                    if tn.orderings.len() > 0 {
                        Err(err_at("More than one set of ordering constraints."@, key.1))
                    } else {
                        match pop_v(rest, end) {
                            Err(x) => Err(x),
                            Ok(v) => match conjunction(v, |x: SExprV| ordering_v(x)) {
                                Err(x) => Err(x),
                                Ok(os) => task_network_from(rest.drop_first(), end, TaskNetworkV { orderings: os, ..tn }),
                            },
                        }
                    }
                } else if k == ":parameters"@ {
                    match pop_list_v(rest, end) {
                        Err(x) => Err(x),
                        Ok((l, span)) => if l.len() > 0 {
                            Err(err_at("No support yet for non-empty parameter lists in task networks."@, Some(Loc { span })))
                        } else {
                            task_network_from(rest.drop_first(), end, tn)
                        },
                    }
                } else if k == ":constraints"@ {
                    match pop_list_v(rest, end) {
                        Err(x) => Err(x),
                        Ok((l, span)) => if l.len() > 0 {
                            Err(err_at("No support yet for non-empty constraint lists in task networks."@, Some(Loc { span })))
                        } else {
                            task_network_from(rest.drop_first(), end, tn)
                        },
                    }
                } else {
                    Err(err_at("Unsupported keyword in task network"@, key.1))
                }
            },
        }
    }
}

/// Reads the keys and values left in `key_values` as a task network.
fn parse_task_network(key_values: ListIter) -> (res: Result<TaskNetwork, ErrLoc>)
    ensures
        match task_network_from(key_values.rest(), key_values.span.end, empty_network()) {
            Ok(tn) => res matches Ok(r) && r@ == tn,
            Err(x) => res matches Err(er) && er@ == x,
        },
{
    let mut kv = key_values;
    let ghost end = kv.span.end;
    let ghost goal = task_network_from(kv.rest(), end, empty_network());
    let mut tn = TaskNetwork::default();
    while !kv.is_empty()
        invariant
            kv.span.end == end,
            goal == task_network_from(key_values.rest(), key_values.span.end, empty_network()),
            goal == task_network_from(kv.rest(), end, tn@),
        decreases kv.elems@.len(),
    {
        let ghost r0 = kv.rest();
        let key = match kv.pop_atom() {
            Ok(k) => k,
            Err(x) => return Err(x),
        };
        let ghost rest = kv.rest();
        assert(rest == r0.drop_first());
        if key.is(":ordered-tasks") || key.is(":ordered-subtasks") {
            if tn.ordered_tasks.len() > 0 {
                return Err(key.invalid(string_of("More than one set of ordered tasks.")));
            }
            let value = match kv.pop() {
                Ok(v) => v,
                Err(x) => return Err(x),
            };
            tn.ordered_tasks = match parse_task_conjunction(value) {
                Ok(ts) => ts,
                Err(x) => return Err(x),
            };
        } else if key.is(":tasks") || key.is(":subtasks") {
            if tn.unordered_tasks.len() > 0 {
                return Err(key.invalid(string_of("More than one set of unordered tasks.")));
            }
            let value = match kv.pop() {
                Ok(v) => v,
                Err(x) => return Err(x),
            };
            tn.unordered_tasks = match parse_task_conjunction(value) {
                Ok(ts) => ts,
                Err(x) => return Err(x),
            };
        } else if key.is(":ordering") {
            if tn.orderings.len() > 0 {
                return Err(key.invalid(string_of("More than one set of ordering constraints.")));
            }
            let value = match kv.pop() {
                Ok(v) => v,
                Err(x) => return Err(x),
            };
            tn.orderings = match parse_ordering_conjunction(value) {
                Ok(os) => os,
                Err(x) => return Err(x),
            };
        } else if key.is(":parameters") {
            let value = match kv.pop_list() {
                Ok(v) => v,
                Err(x) => return Err(x),
            };
            if value.len() > 0 {
                return Err(value.invalid(string_of("No support yet for non-empty parameter lists in task networks.")));
            }
        } else if key.is(":constraints") {
            let value = match kv.pop_list() {
                Ok(v) => v,
                Err(x) => return Err(x),
            };
            if value.len() > 0 {
                return Err(value.invalid(string_of("No support yet for non-empty constraint lists in task networks.")));
            }
        } else {
            return Err(key.invalid(string_of("Unsupported keyword in task network")));
        }
    }
    Ok(tn)
}


/// Appends a deep copy of `e` to `dst`.
fn push_expr(dst: &mut Vec<SExpr>, e: &SExpr)
    ensures
        seq_view(final(dst)@) == seq_view(old(dst)@).push(e@),
{
    let c = e.deep_clone();
    let ghost d0 = dst@;
    dst.push(c);
    proof {
        assert(dst@.drop_last() =~= d0);
    }
}

/// Reading of the features listed in a `:requirements` section.
pub open spec fn requirements_v(elems: Seq<SExprV>) -> Result<Seq<PddlFeature>, ErrV>
    decreases elems.len(),
{
    if elems.len() == 0 {
        Ok(seq![])
    } else {
        match elems[0] {
            SExprV::List(_, span) => Err(err_at("Expected feature name but got list"@, Some(Loc { span }))),
            SExprV::Atom(c, l) => match feature_named(c) {
                None => Err(err_at("Unknown feature `"@ + c + "`"@, l)),
                Some(f) => prepend_ok(seq![f], requirements_v(elems.drop_first())),
            },
        }
    }
}

/// Reads the features left in `property`.
fn read_requirements(property: &mut ListIter) -> (res: Result<Vec<PddlFeature>, ErrLoc>)
    ensures
        match requirements_v(old(property).rest()) {
            Ok(fs) => res matches Ok(r) && r@ == fs,
            Err(x) => res matches Err(er) && er@ == x,
        },
{
    let ghost goal = requirements_v(property.rest());
    let mut features: Vec<PddlFeature> = Vec::new();
    assert(features@ + goal->Ok_0 =~= goal->Ok_0);
    while !property.is_empty()
        invariant
            goal == requirements_v(old(property).rest()),
            goal == prepend_ok(features@, requirements_v(property.rest())),
        decreases property.elems@.len(),
    {
        let ghost r0 = property.elems@;
        proof {
            lemma_seq_view_drop_first(r0);
        }
        let feature = match property.next() {
            Some(f) => f,
            None => return Ok(features),
        };
        let atom = match feature.as_atom() {
            Some(a) => a,
            None => return Err(feature.invalid(string_of("Expected feature name but got list"))),
        };
        let text = atom.to_string();
        let f = match PddlFeature::from_str(text.as_str()) {
            Ok(f) => f,
            Err(m) => return Err(atom.invalid(m)),
        };
        let ghost f0 = features@;
        features.push(f);
        proof {
            match requirements_v(property.rest()) {
                Ok(r) => {
                    assert(f0 + (seq![f] + r) =~= features@ + r);
                },
                Err(_) => {},
            }
        }
    }
    assert(features@ + Seq::<PddlFeature>::empty() =~= features@);
    Ok(features)
}

/// A predicate: its name and typed parameters.
#[derive(Debug, Clone)]
pub struct Predicate {
    pub name: Sym,
    pub args: Vec<TypedSymbol>,
}

/// A function: its name and typed parameters.
#[derive(Debug, Clone)]
pub struct Function {
    pub name: Sym,
    pub args: Vec<TypedSymbol>,
}

/// Mathematical value of a predicate or function: its name and typed parameters.
pub type SignatureV = (SymV, Seq<TypedSymbolV>);

impl View for Predicate {
    type V = SignatureV;

    open spec fn view(&self) -> SignatureV {
        (self.name@, typed_view(self.args@))
    }
}

impl View for Function {
    type V = SignatureV;

    open spec fn view(&self) -> SignatureV {
        (self.name@, typed_view(self.args@))
    }
}

/// Reading of a declaration `(name params...)` of a predicate or function.
pub open spec fn signature_v(e: SExprV) -> Result<SignatureV, ErrV> {
    match e {
        SExprV::Atom(_, l) => Err(err_at("Expected a list"@, l)),
        SExprV::List(l, span) => match pop_atom_v(l, span.end) {
            Err(x) => Err(x),
            Ok(name) => match typed_symbols(l.drop_first(), span.end) {
                Ok(args) => Ok((name, args)),
                Err(x) => Err(x),
            },
        },
    }
}

/// Reads a declaration `(name params...)` of a predicate or function.
fn read_signature(e: &SExpr) -> (res: Result<(Sym, Vec<TypedSymbol>), ErrLoc>)
    ensures
        match signature_v(e@) {
            Ok(s) => res matches Ok(r) && r.0@ == s.0 && typed_view(r.1@) == s.1,
            Err(x) => res matches Err(er) && er@ == x,
        },
{
    let mut l = match e.as_list_iter() {
        Some(l) => l,
        None => return Err(e.invalid(string_of("Expected a list"))),
    };
    let name = match l.pop_atom() {
        Ok(a) => a.copy(),
        Err(x) => return Err(x),
    };
    let args = match consume_typed_symbols(&mut l) {
        Ok(a) => a,
        Err(x) => return Err(x),
    };
    Ok((name, args))
}

/// Values of a sequence of predicates.
pub open spec fn predicates_view(s: Seq<Predicate>) -> Seq<SignatureV> {
    s.map_values(|p: Predicate| p@)
}

/// Values of a sequence of functions.
pub open spec fn functions_view(s: Seq<Function>) -> Seq<SignatureV> {
    s.map_values(|p: Function| p@)
}

/// Reads the declarations left in `property`, as predicates.
fn read_predicates(property: &mut ListIter, out: &mut Vec<Predicate>) -> (res: Result<(), ErrLoc>)
    ensures
        match all_items(old(property).rest(), |x: SExprV| signature_v(x)) {
            Ok(ps) => res is Ok && predicates_view(final(out)@) == predicates_view(old(out)@) + ps,
            Err(x) => res matches Err(er) && er@ == x,
        },
{
    let ghost item = |x: SExprV| signature_v(x);
    let ghost goal = all_items(property.rest(), item);
    let ghost o0 = predicates_view(out@);
    assert(o0 + goal->Ok_0 =~= o0 + goal->Ok_0);
    assert(predicates_view(out@).subrange(o0.len() as int, predicates_view(out@).len() as int) =~= Seq::<SignatureV>::empty());
    while !property.is_empty()
        invariant
            item == (|x: SExprV| signature_v(x)),
            goal == all_items(old(property).rest(), item),
            o0 == predicates_view(old(out)@),
            predicates_view(out@).len() >= o0.len(),
            predicates_view(out@).subrange(0, o0.len() as int) == o0,
            goal == prepend_ok(predicates_view(out@).subrange(o0.len() as int, predicates_view(out@).len() as int), all_items(property.rest(), item)),
        decreases property.elems@.len(),
    {
        let ghost r0 = property.elems@;
        proof {
            lemma_seq_view_drop_first(r0);
        }
        let pred = match property.next() {
            Some(p) => p,
            None => return Ok(()),
        };
        let (name, args) = match read_signature(pred) {
            Ok(s) => s,
            Err(x) => return Err(x),
        };
        let ghost before = predicates_view(out@);
        let ghost p = Predicate { name, args }@;
        out.push(Predicate { name, args });
        proof {
            assert(predicates_view(out@) =~= before.push(p));
            let n = o0.len() as int;
            assert(predicates_view(out@).subrange(0, n) =~= before.subrange(0, n));
            assert(predicates_view(out@).subrange(n, predicates_view(out@).len() as int) =~= before.subrange(n, before.len() as int).push(p));
            match all_items(property.rest(), item) {
                Ok(r) => {
                    assert(before.subrange(n, before.len() as int) + (seq![p] + r) =~= before.subrange(n, before.len() as int).push(p) + r);
                },
                Err(_) => {},
            }
        }
    }
    proof {
        let n = o0.len() as int;
        let v = predicates_view(out@);
        assert(v =~= o0 + (v.subrange(n, v.len() as int) + Seq::<SignatureV>::empty()));
    }
    Ok(())
}

/// Reads the declarations left in `property`, as functions.
fn read_functions(property: &mut ListIter, out: &mut Vec<Function>) -> (res: Result<(), ErrLoc>)
    ensures
        match all_items(old(property).rest(), |x: SExprV| signature_v(x)) {
            Ok(ps) => res is Ok && functions_view(final(out)@) == functions_view(old(out)@) + ps,
            Err(x) => res matches Err(er) && er@ == x,
        },
{
    let ghost item = |x: SExprV| signature_v(x);
    let ghost goal = all_items(property.rest(), item);
    let ghost o0 = functions_view(out@);
    assert(functions_view(out@).subrange(o0.len() as int, functions_view(out@).len() as int) =~= Seq::<SignatureV>::empty());
    while !property.is_empty()
        invariant
            item == (|x: SExprV| signature_v(x)),
            goal == all_items(old(property).rest(), item),
            o0 == functions_view(old(out)@),
            functions_view(out@).len() >= o0.len(),
            functions_view(out@).subrange(0, o0.len() as int) == o0,
            goal == prepend_ok(functions_view(out@).subrange(o0.len() as int, functions_view(out@).len() as int), all_items(property.rest(), item)),
        decreases property.elems@.len(),
    {
        let ghost r0 = property.elems@;
        proof {
            lemma_seq_view_drop_first(r0);
        }
        let func = match property.next() {
            Some(p) => p,
            None => return Ok(()),
        };
        let (name, args) = match read_signature(func) {
            Ok(s) => s,
            Err(x) => return Err(x),
        };
        let ghost before = functions_view(out@);
        let ghost p = Function { name, args }@;
        out.push(Function { name, args });
        proof {
            assert(functions_view(out@) =~= before.push(p));
            let n = o0.len() as int;
            assert(functions_view(out@).subrange(0, n) =~= before.subrange(0, n));
            assert(functions_view(out@).subrange(n, functions_view(out@).len() as int) =~= before.subrange(n, before.len() as int).push(p));
            match all_items(property.rest(), item) {
                Ok(r) => {
                    assert(before.subrange(n, before.len() as int) + (seq![p] + r) =~= before.subrange(n, before.len() as int).push(p) + r);
                },
                Err(_) => {},
            }
        }
    }
    proof {
        let n = o0.len() as int;
        let v = functions_view(out@);
        assert(v =~= o0 + (v.subrange(n, v.len() as int) + Seq::<SignatureV>::empty()));
    }
    Ok(())
}


/// An action: its name, typed parameters, preconditions and effects.
#[derive(Debug)]
pub struct Action {
    pub name: Sym,
    pub args: Vec<TypedSymbol>,
    pub pre: Vec<SExpr>,
    pub eff: Vec<SExpr>,
}

/// Mathematical value of an action.
pub struct ActionV {
    pub name: SymV,
    pub args: Seq<TypedSymbolV>,
    pub pre: Seq<SExprV>,
    pub eff: Seq<SExprV>,
}

impl View for Action {
    type V = ActionV;

    open spec fn view(&self) -> ActionV {
        ActionV { name: self.name@, args: typed_view(self.args@), pre: seq_view(self.pre@), eff: seq_view(self.eff@) }
    }
}

/// Reading of the keys and values `elems` left in an action definition (the list ends at
/// `end`), once `a` was read.
pub open spec fn action_body(elems: Seq<SExprV>, end: Pos, a: ActionV) -> Result<ActionV, ErrV>
    decreases elems.len(),
{
    if elems.len() == 0 {
        Ok(a)
    } else {
        match pop_atom_v(elems, end) {
            Err(x) => Err(x),
            Ok(key) => {
                let rest = elems.drop_first();
                match pop_v(rest, end) {
                    Err(x) => Err(err_ctx(x, "No value associated to arg: "@ + key.0)),
                    Ok(value) => if key.0 == ":parameters"@ {
                        match value {
                            SExprV::Atom(_, l) => Err(err_at("Expected a parameter list"@, l)),
                            SExprV::List(vl, vspan) => match typed_symbols(vl, vspan.end) {
                                Err(x) => Err(x),
                                Ok(ts) => action_body(rest.drop_first(), end, ActionV { args: a.args + ts, ..a }),
                            },
                        }
                    } else if key.0 == ":precondition"@ {
                        action_body(rest.drop_first(), end, ActionV { pre: a.pre.push(value), ..a })
                    } else if key.0 == ":effect"@ {
                        action_body(rest.drop_first(), end, ActionV { eff: a.eff.push(value), ..a })
                    } else {
                        Err(err_at("unsupported key in action: "@ + key.0, key.1))
                    },
                }
            },
        }
    }
}

/// Reading of an action definition `name :key value ...` from the elements `elems` left in
/// its list.
pub open spec fn action_v(elems: Seq<SExprV>, end: Pos) -> Result<ActionV, ErrV> {
    match pop_atom_v(elems, end) {
        Err(x) => Err(x),
        Ok(name) => action_body(elems.drop_first(), end, ActionV { name, args: seq![], pre: seq![], eff: seq![] }),
    }
}

/// The message of an error on a key without a value.
fn no_value_msg(key: &String) -> (res: String)
    ensures
        res@ == "No value associated to arg: "@ + key@,
{
    let mut m = string_of("No value associated to arg: ");
    m.append(key.as_str());
    m
}

/// The message of an error on an unsupported key.
fn unsupported_key_msg(key: &String) -> (res: String)
    ensures
        res@ == "unsupported key in action: "@ + key@,
{
    let mut m = string_of("unsupported key in action: ");
    m.append(key.as_str());
    m
}

/// Appends to `args` the typed symbols of the list `value`, which must be a list.
fn read_parameters_into(value: &SExpr, args: &mut Vec<TypedSymbol>) -> (res: Result<(), ErrLoc>)
    ensures
        match value@ {
            SExprV::Atom(_, l) => res matches Err(er) && er@ == err_at("Expected a parameter list"@, l),
            SExprV::List(vl, vspan) => match typed_symbols(vl, vspan.end) {
                Err(x) => res matches Err(er) && er@ == x,
                Ok(ts) => res is Ok && typed_view(final(args)@) == typed_view(old(args)@) + ts,
            },
        },
{
    let mut value_it = match value.as_list_iter() {
        Some(it) => it,
        None => return Err(value.invalid(string_of("Expected a parameter list"))),
    };
    let ts = match consume_typed_symbols(&mut value_it) {
        Ok(ts) => ts,
        Err(x) => return Err(x),
    };
    let ghost a0 = args@;
    let mut i: usize = 0;
    while i < ts.len()
        invariant
            i <= ts@.len(),
            typed_view(args@) == typed_view(a0) + typed_view(ts@.subrange(0, i as int)),
        decreases ts@.len() - i,
    {
        let ghost before = args@;
        args.push(TypedSymbol { symbol: ts[i].symbol.copy(), tpe: match &ts[i].tpe {
            Some(t) => Some(t.copy()),
            None => None,
        } });
        proof {
            assert(typed_view(args@) =~= typed_view(before).push(ts@[i as int]@));
            assert(typed_view(ts@.subrange(0, i + 1)) =~= typed_view(ts@.subrange(0, i as int)).push(ts@[i as int]@));
        }
        i = i + 1;
    }
    assert(ts@.subrange(0, i as int) =~= ts@);
    Ok(())
}

/// Reads an action definition from the elements left in `property`.
fn read_action(property: &mut ListIter) -> (res: Result<Action, ErrLoc>)
    ensures
        match action_v(old(property).rest(), old(property).span.end) {
            Ok(a) => res matches Ok(r) && r@ == a,
            Err(x) => res matches Err(er) && er@ == x,
        },
{
    let ghost end = property.span.end;
    let ghost goal = action_v(property.rest(), end);
    let name = match property.pop_atom() {
        Ok(a) => a.copy(),
        Err(x) => return Err(x),
    };
    let mut args: Vec<TypedSymbol> = Vec::new();
    let mut pre: Vec<SExpr> = Vec::new();
    let mut eff: Vec<SExpr> = Vec::new();
    proof {
        assert(typed_view(args@) =~= Seq::<TypedSymbolV>::empty());
        assert(seq_view(pre@) =~= Seq::<SExprV>::empty());
        assert(seq_view(eff@) =~= Seq::<SExprV>::empty());
    }
    while !property.is_empty()
        invariant
            property.span.end == end,
            end == old(property).span.end,
            goal == action_v(old(property).rest(), end),
            goal == action_body(property.rest(), end, ActionV {
                name: name@,
                args: typed_view(args@),
                pre: seq_view(pre@),
                eff: seq_view(eff@),
            }),
        decreases property.elems@.len(),
    {
        let key_expr = match property.pop_atom() {
            Ok(a) => a,
            Err(x) => return Err(x),
        };
        let key = key_expr.to_string();
        let value = match property.pop() {
            Ok(v) => v,
            Err(x) => return Err(x.ctx(no_value_msg(&key))),
        };
        if key_expr.is(":parameters") {
            match read_parameters_into(value, &mut args) {
                Ok(()) => {},
                Err(x) => return Err(x),
            }
        } else if key_expr.is(":precondition") {
            push_expr(&mut pre, value);
        } else if key_expr.is(":effect") {
            push_expr(&mut eff, value);
        } else {
            return Err(key_expr.invalid(unsupported_key_msg(&key)));
        }
    }
    Ok(Action { name, args, pre, eff })
}

/// A durative action: its name, typed parameters, duration, conditions and effects.
#[derive(Debug)]
pub struct DurativeAction {
    pub name: Sym,
    pub args: Vec<TypedSymbol>,
    pub duration: SExpr,
    pub conditions: Vec<SExpr>,
    pub effects: Vec<SExpr>,
}

/// Mathematical value of a durative action.
pub struct DurativeActionV {
    pub name: SymV,
    pub args: Seq<TypedSymbolV>,
    pub duration: SExprV,
    pub conditions: Seq<SExprV>,
    pub effects: Seq<SExprV>,
}

impl View for DurativeAction {
    type V = DurativeActionV;

    open spec fn view(&self) -> DurativeActionV {
        DurativeActionV {
            name: self.name@,
            args: typed_view(self.args@),
            duration: self.duration@,
            conditions: seq_view(self.conditions@),
            effects: seq_view(self.effects@),
        }
    }
}

/// Reading of the keys and values `elems` left in a durative action definition (the list ends
/// at `end`), once `a` was read.
pub open spec fn durative_action_body(elems: Seq<SExprV>, end: Pos, a: DurativeActionV) -> Result<DurativeActionV, ErrV>
    decreases elems.len(),
{
    if elems.len() == 0 {
        Ok(a)
    } else {
        match pop_atom_v(elems, end) {
            Err(x) => Err(x),
            Ok(key) => {
                let rest = elems.drop_first();
                match pop_v(rest, end) {
                    Err(x) => Err(err_ctx(x, "No value associated to arg: "@ + key.0)),
                    Ok(value) => if key.0 == ":parameters"@ {
                        if a.args.len() > 0 {
                            Err(err_at("Duplicated ':parameters' tag is not allowed twice"@, key.1))
                        } else {
                            match value {
                                SExprV::Atom(_, l) => Err(err_at("Expected a parameter list"@, l)),
                                SExprV::List(vl, vspan) => match typed_symbols(vl, vspan.end) {
                                    Err(x) => Err(x),
                                    Ok(ts) => durative_action_body(rest.drop_first(), end, DurativeActionV { args: a.args + ts, ..a }),
                                },
                            }
                        }
                    } else if key.0 == ":duration"@ {
                        durative_action_body(rest.drop_first(), end, DurativeActionV { duration: value, ..a })
                    } else if key.0 == ":condition"@ {
                        durative_action_body(rest.drop_first(), end, DurativeActionV { conditions: a.conditions.push(value), ..a })
                    } else if key.0 == ":effect"@ {
                        durative_action_body(rest.drop_first(), end, DurativeActionV { effects: a.effects.push(value), ..a })
                    } else {
                        Err(err_at("unsupported key in action: "@ + key.0, key.1))
                    },
                }
            },
        }
    }
}

/// Reading of a durative action definition from the elements `elems` left in its list; until
/// a `:duration` is given, the duration is the name of the action.
pub open spec fn durative_action_v(elems: Seq<SExprV>, end: Pos) -> Result<DurativeActionV, ErrV> {
    match pop_atom_v(elems, end) {
        Err(x) => Err(x),
        Ok(name) => durative_action_body(elems.drop_first(), end, DurativeActionV {
            name,
            args: seq![],
            duration: SExprV::Atom(name.0, name.1),
            conditions: seq![],
            effects: seq![],
        }),
    }
}

/// Reads a durative action definition from the elements left in `property`.
fn read_durative_action(property: &mut ListIter) -> (res: Result<DurativeAction, ErrLoc>)
    ensures
        match durative_action_v(old(property).rest(), old(property).span.end) {
            Ok(a) => res matches Ok(r) && r@ == a,
            Err(x) => res matches Err(er) && er@ == x,
        },
{
    let ghost end = property.span.end;
    let ghost goal = durative_action_v(property.rest(), end);
    let name = match property.pop_atom() {
        Ok(a) => a.copy(),
        Err(x) => return Err(x),
    };
    let mut args: Vec<TypedSymbol> = Vec::new();
    let mut duration = SExpr::Atom(name.copy());
    let mut conditions: Vec<SExpr> = Vec::new();
    let mut effects: Vec<SExpr> = Vec::new();
    proof {
        assert(typed_view(args@) =~= Seq::<TypedSymbolV>::empty());
        assert(seq_view(conditions@) =~= Seq::<SExprV>::empty());
        assert(seq_view(effects@) =~= Seq::<SExprV>::empty());
    }
    while !property.is_empty()
        invariant
            property.span.end == end,
            end == old(property).span.end,
            goal == durative_action_v(old(property).rest(), end),
            goal == durative_action_body(property.rest(), end, DurativeActionV {
                name: name@,
                args: typed_view(args@),
                duration: duration@,
                conditions: seq_view(conditions@),
                effects: seq_view(effects@),
            }),
        decreases property.elems@.len(),
    {
        let key_expr = match property.pop_atom() {
            Ok(a) => a,
            Err(x) => return Err(x),
        };
        let key = key_expr.to_string();
        let value = match property.pop() {
            Ok(v) => v,
            Err(x) => return Err(x.ctx(no_value_msg(&key))),
        };
        if key_expr.is(":parameters") {
            if args.len() > 0 {
                return Err(key_expr.invalid(string_of("Duplicated ':parameters' tag is not allowed twice")));
            }
            match read_parameters_into(value, &mut args) {
                Ok(()) => {},
                Err(x) => return Err(x),
            }
        } else if key_expr.is(":duration") {
            duration = value.deep_clone();
        } else if key_expr.is(":condition") {
            push_expr(&mut conditions, value);
        } else if key_expr.is(":effect") {
            push_expr(&mut effects, value);
        } else {
            return Err(key_expr.invalid(unsupported_key_msg(&key)));
        }
    }
    Ok(DurativeAction { name, args, duration, conditions, effects })
}


/// A task declared in a domain: its name, typed parameters and where it was declared.
#[derive(Debug, Clone)]
pub struct TaskDef {
    pub name: Sym,
    pub args: Vec<TypedSymbol>,
    pub source: Option<Loc>,
}

/// Mathematical value of a task declaration.
pub type TaskDefV = (SymV, Seq<TypedSymbolV>, Option<Loc>);

impl View for TaskDef {
    type V = TaskDefV;

    open spec fn view(&self) -> TaskDefV {
        (self.name@, typed_view(self.args@), self.source)
    }
}

/// Reading of a task declaration `name :parameters (params...)` from the elements `elems` left
/// in its list, which is at `loc`.
pub open spec fn task_def_v(elems: Seq<SExprV>, end: Pos, loc: Option<Loc>) -> Result<TaskDefV, ErrV> {
    match pop_atom_v(elems, end) {
        Err(x) => Err(err_ctx(x, "Missing task name"@)),
        Ok(name) => match pop_known_atom_v(elems.drop_first(), end, ":parameters"@) {
            Err(x) => Err(x),
            Ok(_) => match pop_list_v(elems.skip(2), end) {
                Err(x) => Err(err_ctx(x, "Expected a parameter list"@)),
                Ok((pl, pspan)) => match typed_symbols(pl, pspan.end) {
                    Err(x) => Err(x),
                    Ok(params) => Ok((name, params, loc)),
                },
            },
        },
    }
}

/// Reads the name and parameters `name :parameters (params...)` from `property`.
fn read_name_and_parameters(property: &mut ListIter) -> (res: Result<(Sym, Vec<TypedSymbol>), ErrLoc>)
    ensures
        final(property).span == old(property).span,
        match task_def_v(old(property).rest(), old(property).span.end, None) {
            Ok(d) => res matches Ok(r) && r.0@ == d.0 && typed_view(r.1@) == d.1 && final(property).rest()
                == old(property).rest().skip(3),
            Err(x) => res matches Err(er) && er@ == x,
        },
{
    let ghost all = property.rest();
    let name = match property.pop_atom() {
        Ok(a) => a.copy(),
        Err(x) => return Err(x.ctx(string_of("Missing task name"))),
    };
    match property.pop_known_atom(":parameters") {
        Ok(_) => {},
        Err(x) => return Err(x),
    }
    proof {
        assert(all.drop_first().drop_first() =~= all.skip(2));
    }
    let params = match property.pop_list() {
        Ok(l) => l,
        Err(x) => return Err(x.ctx(string_of("Expected a parameter list"))),
    };
    proof {
        assert(all.skip(2).drop_first() =~= all.skip(3));
    }
    let mut it = params.iter();
    let args = match consume_typed_symbols(&mut it) {
        Ok(a) => a,
        Err(x) => return Err(x),
    };
    Ok((name, args))
}

/// A method of a hierarchical domain: the task it refines, under which precondition, into which
/// network of subtasks.
#[derive(Debug)]
pub struct Method {
    pub name: Sym,
    pub parameters: Vec<TypedSymbol>,
    pub task: Task,
    pub precondition: Vec<SExpr>,
    pub subtask_network: TaskNetwork,
    pub source: Option<Loc>,
}

/// Mathematical value of a method.
pub struct MethodV {
    pub name: SymV,
    pub parameters: Seq<TypedSymbolV>,
    pub task: TaskV,
    pub precondition: Seq<SExprV>,
    pub subtask_network: TaskNetworkV,
    pub source: Option<Loc>,
}

impl View for Method {
    type V = MethodV;

    open spec fn view(&self) -> MethodV {
        MethodV {
            name: self.name@,
            parameters: typed_view(self.parameters@),
            task: self.task@,
            precondition: seq_view(self.precondition@),
            subtask_network: self.subtask_network@,
            source: self.source,
        }
    }
}

/// Reading of a method `name :parameters (params...) :task task [:precondition p] network...`
/// from the elements `elems` left in its list, which is at `loc`.
pub open spec fn method_v(elems: Seq<SExprV>, end: Pos, loc: Option<Loc>) -> Result<MethodV, ErrV> {
    match task_def_v(elems, end, loc) {
        Err(x) => Err(x),
        Ok((name, parameters, _)) => match pop_known_atom_v(elems.skip(3), end, ":task"@) {
            Err(x) => Err(x),
            Ok(_) => match pop_v(elems.skip(4), end) {
                Err(x) => Err(x),
                Ok(t) => match task_v(t, false) {
                    Err(x) => Err(x),
                    Ok(task) => {
                        let r5 = elems.skip(5);
                        if r5.len() > 0 && (r5[0] matches SExprV::Atom(c, _) && c == ":precondition"@) {
                            match pop_v(r5.drop_first(), end) {
                                Err(x) => Err(x),
                                Ok(p) => match task_network_from(r5.skip(2), end, empty_network()) {
                                    Err(x) => Err(x),
                                    Ok(tn) => Ok(MethodV { name, parameters, task, precondition: seq![p], subtask_network: tn, source: loc }),
                                },
                            }
                        } else {
                            match task_network_from(r5, end, empty_network()) {
                                Err(x) => Err(x),
                                Ok(tn) => Ok(MethodV { name, parameters, task, precondition: seq![], subtask_network: tn, source: loc }),
                            }
                        }
                    },
                },
            },
        },
    }
}

/// Reads a method definition from the elements left in `property`; the method is at `loc`.
fn read_method(property: ListIter, loc: Option<Loc>) -> (res: Result<Method, ErrLoc>)
    ensures
        match method_v(property.rest(), property.span.end, loc) {
            Ok(m) => res matches Ok(r) && r@ == m,
            Err(x) => res matches Err(er) && er@ == x,
        },
{
    let ghost all = property.rest();
    let mut it = property;
    let (name, parameters) = match read_name_and_parameters(&mut it) {
        Ok(r) => r,
        Err(x) => return Err(x),
    };
    match it.pop_known_atom(":task") {
        Ok(_) => {},
        Err(x) => return Err(x),
    }
    proof {
        assert(all.skip(3).drop_first() =~= all.skip(4));
    }
    let t = match it.pop() {
        Ok(t) => t,
        Err(x) => return Err(x),
    };
    proof {
        assert(all.skip(4).drop_first() =~= all.skip(5));
    }
    let task = match parse_task(t, false) {
        Ok(t) => t,
        Err(x) => return Err(x),
    };
    let ghost r5 = it.rest();
    proof {
        if r5.len() > 0 {
            lemma_seq_view_drop_first(it.elems@);
        }
    }
    let has_pre = match it.peek() {
        Some(e) => e.is_atom(":precondition"),
        None => false,
    };
    let mut precondition: Vec<SExpr> = Vec::new();
    if has_pre {
        let _ = it.next();
        let p = match it.pop() {
            Ok(p) => p,
            Err(x) => return Err(x),
        };
        proof {
            assert(r5.drop_first().drop_first() =~= r5.skip(2));
        }
        push_expr(&mut precondition, p);
        assert(seq_view(precondition@) =~= seq![p@]) by {
            assert(seq_view(Seq::<SExpr>::empty()) =~= Seq::<SExprV>::empty());
        }
    } else {
        assert(seq_view(precondition@) =~= Seq::<SExprV>::empty());
    }
    let subtask_network = match parse_task_network(it) {
        Ok(tn) => tn,
        Err(x) => return Err(x),
    };
    Ok(Method { name, parameters, task, precondition, subtask_network, source: loc })
}


/// A planning domain.
#[derive(Debug)]
pub struct Domain {
    pub name: Sym,
    pub features: Vec<PddlFeature>,
    pub types: Vec<TypedSymbol>,
    pub constants: Vec<TypedSymbol>,
    pub predicates: Vec<Predicate>,
    pub functions: Vec<Function>,
    pub tasks: Vec<TaskDef>,
    pub methods: Vec<Method>,
    pub actions: Vec<Action>,
    pub durative_actions: Vec<DurativeAction>,
}

/// Mathematical value of a domain.
pub struct DomainV {
    pub name: SymV,
    pub features: Seq<PddlFeature>,
    pub types: Seq<TypedSymbolV>,
    pub constants: Seq<TypedSymbolV>,
    pub predicates: Seq<SignatureV>,
    pub functions: Seq<SignatureV>,
    pub tasks: Seq<TaskDefV>,
    pub methods: Seq<MethodV>,
    pub actions: Seq<ActionV>,
    pub durative_actions: Seq<DurativeActionV>,
}

impl View for Domain {
    type V = DomainV;

    open spec fn view(&self) -> DomainV {
        DomainV {
            name: self.name@,
            features: self.features@,
            types: typed_view(self.types@),
            constants: typed_view(self.constants@),
            predicates: predicates_view(self.predicates@),
            functions: functions_view(self.functions@),
            tasks: self.tasks@.map_values(|t: TaskDef| t@),
            methods: self.methods@.map_values(|m: Method| m@),
            actions: self.actions@.map_values(|a: Action| a@),
            durative_actions: self.durative_actions@.map_values(|a: DurativeAction| a@),
        }
    }
}

/// The message of an error on a missing feature.
pub open spec fn missing_feature_msg(feature: PddlFeature) -> Seq<char> {
    "Requires the "@ + feature_text(feature) + " feature in the requirements."@
}

/// An error located on `expr` if `feature` is not among the features of `domain`.
fn check_feature_presence(feature: PddlFeature, domain: &Domain, expr: &SExpr) -> (res: Result<(), ErrLoc>)
    ensures
        if domain.features@.contains(feature) {
            res is Ok
        } else {
            res matches Err(er) && er@ == err_at(missing_feature_msg(feature), spec_loc(expr@))
        },
{
    let mut i: usize = 0;
    while i < domain.features.len()
        invariant
            i <= domain.features@.len(),
            forall|j: int| 0 <= j < i ==> domain.features@[j] != feature,
        decreases domain.features@.len() - i,
    {
        if domain.features[i] == feature {
            return Ok(());
        }
        i = i + 1;
    }
    let mut m = string_of("Requires the ");
    let f = feature.to_string();
    m.append(f.as_str());
    m.append(" feature in the requirements.");
    Err(expr.invalid(m))
}

/// The domain `d` after reading the section `current` of its definition.
pub open spec fn domain_property(current: SExprV, d: DomainV) -> Result<DomainV, ErrV> {
    match current {
        SExprV::Atom(_, l) => Err(err_at("expected a property list"@, l)),
        SExprV::List(p, span) => match pop_atom_v(p, span.end) {
            Err(x) => Err(x),
            Ok(key) => {
                let rest = p.drop_first();
                let here = Some(Loc { span });
                let k = key.0;
                if k == ":requirements"@ {
                    match requirements_v(rest) {
                        Ok(fs) => Ok(DomainV { features: d.features + fs, ..d }),
                        Err(x) => Err(x),
                    }
                } else if k == ":predicates"@ {
                    match all_items(rest, |x: SExprV| signature_v(x)) {
                        Ok(ps) => Ok(DomainV { predicates: d.predicates + ps, ..d }),
                        Err(x) => Err(x),
                    }
                } else if k == ":types"@ {
                    if d.types.len() > 0 {
                        Err(err_at("More than one ':types' section definition"@, here))
                    } else {
                        match typed_symbols(rest, span.end) {
                            Ok(ts) => Ok(DomainV { types: ts, ..d }),
                            Err(x) => Err(x),
                        }
                    }
                } else if k == ":constants"@ {
                    if d.constants.len() > 0 {
                        Err(err_at("More than one ':constants' section definition"@, here))
                    } else {
                        match typed_symbols(rest, span.end) {
                            Ok(ts) => Ok(DomainV { constants: ts, ..d }),
                            Err(x) => Err(x),
                        }
                    }
                } else if k == ":functions"@ {
                    match all_items(rest, |x: SExprV| signature_v(x)) {
                        Ok(fs) => Ok(DomainV { functions: d.functions + fs, ..d }),
                        Err(x) => Err(x),
                    }
                } else if k == ":action"@ {
                    match action_v(rest, span.end) {
                        Ok(a) => Ok(DomainV { actions: d.actions.push(a), ..d }),
                        Err(x) => Err(x),
                    }
                } else if k == ":durative-action"@ {
                    match durative_action_v(rest, span.end) {
                        Ok(a) => Ok(DomainV { durative_actions: d.durative_actions.push(a), ..d }),
                        Err(x) => Err(x),
                    }
                } else if k == ":task"@ {
                    if !d.features.contains(PddlFeature::Hierarchy) {
                        Err(err_at(missing_feature_msg(PddlFeature::Hierarchy), here))
                    } else {
                        match task_def_v(rest, span.end, here) {
                            Ok(t) => Ok(DomainV { tasks: d.tasks.push(t), ..d }),
                            Err(x) => Err(x),
                        }
                    }
                } else if k == ":method"@ {
                    if !d.features.contains(PddlFeature::Hierarchy) {
                        Err(err_at(missing_feature_msg(PddlFeature::Hierarchy), here))
                    } else {
                        match method_v(rest, span.end, here) {
                            Ok(m) => Ok(DomainV { methods: d.methods.push(m), ..d }),
                            Err(x) => Err(x),
                        }
                    }
                } else {
                    Err(err_at("unsupported block"@, here))
                }
            },
        },
    }
}

/// Reads into `res` the section `current` of a domain definition.
#[verifier::rlimit(40)]
fn read_property(current: &SExpr, res: &mut Domain) -> (r: Result<(), ErrLoc>)
    ensures
        match domain_property(current@, old(res)@) {
            Ok(d) => r is Ok && final(res)@ == d,
            Err(x) => r matches Err(er) && er@ == x,
        },
{
    let mut property = match current.as_list_iter() {
        Some(p) => p,
        None => return Err(current.invalid(string_of("expected a property list"))),
    };
    let key = match property.pop_atom() {
        Ok(k) => k,
        Err(x) => return Err(x),
    };
    let ghost d0 = res@;
    if key.is(":requirements") {
        let fs = match read_requirements(&mut property) {
            Ok(fs) => fs,
            Err(x) => return Err(x),
        };
        let mut i: usize = 0;
        while i < fs.len()
            invariant
                i <= fs@.len(),
                res@ == (DomainV { features: d0.features + fs@.subrange(0, i as int), ..d0 }),
            decreases fs@.len() - i,
        {
            res.features.push(fs[i]);
            assert(d0.features + fs@.subrange(0, i + 1) =~= (d0.features + fs@.subrange(0, i as int)).push(fs@[i as int]));
            i = i + 1;
        }
        assert(fs@.subrange(0, i as int) =~= fs@);
        Ok(())
    } else if key.is(":predicates") {
        read_predicates(&mut property, &mut res.predicates)
    } else if key.is(":types") {
        if res.types.len() > 0 {
            return Err(current.invalid(string_of("More than one ':types' section definition")));
        }
        let types = match consume_typed_symbols(&mut property) {
            Ok(ts) => ts,
            Err(x) => return Err(x),
        };
        res.types = types;
        Ok(())
    } else if key.is(":constants") {
        if res.constants.len() > 0 {
            return Err(current.invalid(string_of("More than one ':constants' section definition")));
        }
        let constants = match consume_typed_symbols(&mut property) {
            Ok(ts) => ts,
            Err(x) => return Err(x),
        };
        res.constants = constants;
        Ok(())
    } else if key.is(":functions") {
        read_functions(&mut property, &mut res.functions)
    } else if key.is(":action") {
        let a = match read_action(&mut property) {
            Ok(a) => a,
            Err(x) => return Err(x),
        };
        let ghost v = res.actions@;
        res.actions.push(a);
        assert(res.actions@.map_values(|a: Action| a@) =~= v.map_values(|a: Action| a@).push(a@));
        Ok(())
    } else if key.is(":durative-action") {
        let a = match read_durative_action(&mut property) {
            Ok(a) => a,
            Err(x) => return Err(x),
        };
        let ghost v = res.durative_actions@;
        res.durative_actions.push(a);
        assert(res.durative_actions@.map_values(|a: DurativeAction| a@) =~= v.map_values(|a: DurativeAction| a@).push(a@));
        Ok(())
    } else if key.is(":task") {
        match check_feature_presence(PddlFeature::Hierarchy, res, current) {
            Ok(()) => {},
            Err(x) => return Err(x),
        }
        let (name, args) = match read_name_and_parameters(&mut property) {
            Ok(r) => r,
            Err(x) => return Err(x),
        };
        let t = TaskDef { name, args, source: current.loc() };
        let ghost v = res.tasks@;
        res.tasks.push(t);
        assert(res.tasks@.map_values(|t: TaskDef| t@) =~= v.map_values(|t: TaskDef| t@).push(t@));
        Ok(())
    } else if key.is(":method") {
        match check_feature_presence(PddlFeature::Hierarchy, res, current) {
            Ok(()) => {},
            Err(x) => return Err(x),
        }
        let m = match read_method(property, current.loc()) {
            Ok(m) => m,
            Err(x) => return Err(x),
        };
        let ghost v = res.methods@;
        res.methods.push(m);
        assert(res.methods@.map_values(|m: Method| m@) =~= v.map_values(|m: Method| m@).push(m@));
        Ok(())
    } else {
        Err(current.invalid(string_of("unsupported block")))
    }
}

/// The domain `d` after reading the sections `props` of its definition, in order.
pub open spec fn domain_properties(props: Seq<SExprV>, d: DomainV) -> Result<DomainV, ErrV>
    decreases props.len(),
{
    if props.len() == 0 {
        Ok(d)
    } else {
        match domain_property(props[0], d) {
            Err(x) => Err(x),
            Ok(d2) => domain_properties(props.drop_first(), d2),
        }
    }
}

/// The domain named `name`, with nothing in it.
pub open spec fn empty_domain(name: SymV) -> DomainV {
    DomainV {
        name,
        features: seq![],
        types: seq![],
        constants: seq![],
        predicates: seq![],
        functions: seq![],
        tasks: seq![],
        methods: seq![],
        actions: seq![],
        durative_actions: seq![],
    }
}

/// Reading of a domain definition `(define (domain NAME) sections...)`.
pub open spec fn domain_v(e: SExprV) -> Result<DomainV, ErrV> {
    match e {
        SExprV::Atom(_, l) => Err(err_at("Expected a list"@, l)),
        SExprV::List(l, span) => match pop_known_atom_v(l, span.end, "define"@) {
            Err(x) => Err(x),
            Ok(_) => match pop_list_v(l.drop_first(), span.end) {
                Err(x) => Err(x),
                Ok((nl, nspan)) => match pop_known_atom_v(nl, nspan.end, "domain"@) {
                    Err(x) => Err(x),
                    Ok(_) => match pop_atom_v(nl.drop_first(), nspan.end) {
                        Err(x) => Err(err_ctx(x, "missing name of domain"@)),
                        Ok(name) => domain_properties(l.skip(2), empty_domain(name)),
                    },
                },
            },
        },
    }
}

/// Reads a domain definition `(define (domain NAME) sections...)`.
pub fn read_domain(dom: SExpr) -> (res: Result<Domain, ErrLoc>)
    ensures
        match domain_v(dom@) {
            Ok(d) => res matches Ok(r) && r@ == d,
            Err(x) => res matches Err(er) && er@ == x,
        },
{
    let mut it = match dom.as_list_iter() {
        Some(it) => it,
        None => return Err(dom.invalid(string_of("Expected a list"))),
    };
    let ghost all = it.rest();
    match it.pop_known_atom("define") {
        Ok(_) => {},
        Err(x) => return Err(x),
    }
    let name_decl = match it.pop_list() {
        Ok(l) => l,
        Err(x) => return Err(x),
    };
    proof {
        assert(all.drop_first().drop_first() =~= all.skip(2));
    }
    let mut name_it = name_decl.iter();
    match name_it.pop_known_atom("domain") {
        Ok(_) => {},
        Err(x) => return Err(x),
    }
    let name = match name_it.pop_atom() {
        Ok(a) => a.copy(),
        Err(x) => return Err(x.ctx(string_of("missing name of domain"))),
    };
    let mut res = Domain {
        name,
        features: Vec::new(),
        types: Vec::new(),
        constants: Vec::new(),
        predicates: Vec::new(),
        functions: Vec::new(),
        tasks: Vec::new(),
        methods: Vec::new(),
        actions: Vec::new(),
        durative_actions: Vec::new(),
    };
    proof {
        assert(res@.types =~= Seq::<TypedSymbolV>::empty());
        assert(res@.constants =~= Seq::<TypedSymbolV>::empty());
        assert(res@.predicates =~= Seq::<SignatureV>::empty());
        assert(res@.functions =~= Seq::<SignatureV>::empty());
        assert(res@.tasks =~= Seq::<TaskDefV>::empty());
        assert(res@.methods =~= Seq::<MethodV>::empty());
        assert(res@.actions =~= Seq::<ActionV>::empty());
        assert(res@.durative_actions =~= Seq::<DurativeActionV>::empty());
        assert(res@ == empty_domain(name@));
    }
    let ghost goal = domain_v(dom@);
    while !it.is_empty()
        invariant
            goal == domain_v(dom@),
            goal == domain_properties(it.rest(), res@),
        decreases it.elems@.len(),
    {
        let ghost r0 = it.elems@;
        proof {
            lemma_seq_view_drop_first(r0);
        }
        let current = match it.next() {
            Some(c) => c,
            None => return Ok(res),
        };
        match read_property(current, &mut res) {
            Ok(()) => {},
            Err(x) => return Err(x),
        }
    }
    Ok(res)
}


/// A planning problem.
#[derive(Debug)]
pub struct Problem {
    pub problem_name: Sym,
    pub domain_name: Sym,
    pub objects: Vec<TypedSymbol>,
    pub init: Vec<SExpr>,
    pub task_network: Option<TaskNetwork>,
    pub goal: Vec<SExpr>,
}

/// Mathematical value of a problem.
pub struct ProblemV {
    pub problem_name: SymV,
    pub domain_name: SymV,
    pub objects: Seq<TypedSymbolV>,
    pub init: Seq<SExprV>,
    pub task_network: Option<TaskNetworkV>,
    pub goal: Seq<SExprV>,
}

impl View for Problem {
    type V = ProblemV;

    open spec fn view(&self) -> ProblemV {
        ProblemV {
            problem_name: self.problem_name@,
            domain_name: self.domain_name@,
            objects: typed_view(self.objects@),
            init: seq_view(self.init@),
            task_network: match self.task_network {
                Some(tn) => Some(tn@),
                None => None,
            },
            goal: seq_view(self.goal@),
        }
    }
}

/// The problem `p` after reading the section `current` of its definition.
pub open spec fn problem_property(current: SExprV, p: ProblemV) -> Result<ProblemV, ErrV> {
    match current {
        SExprV::Atom(_, l) => Err(err_at("Expected a list"@, l)),
        SExprV::List(pl, span) => match pop_atom_v(pl, span.end) {
            Err(x) => Err(x),
            Ok(key) => {
                let rest = pl.drop_first();
                let k = key.0;
                if k == ":objects"@ {
                    match typed_symbols(rest, span.end) {
                        Ok(ts) => Ok(ProblemV { objects: p.objects + ts, ..p }),
                        Err(x) => Err(x),
                    }
                } else if k == ":init"@ {
                    Ok(ProblemV { init: p.init + rest, ..p })
                } else if k == ":goal"@ {
                    Ok(ProblemV { goal: p.goal + rest, ..p })
                } else if k == ":htn"@ {
                    if p.task_network is Some {
                        Err(err_at("More than one task network specified"@, Some(Loc { span })))
                    } else {
                        match task_network_from(rest, span.end, empty_network()) {
                            Ok(tn) => Ok(ProblemV { task_network: Some(tn), ..p }),
                            Err(x) => Err(x),
                        }
                    }
                } else {
                    Err(err_at("unsupported block"@, Some(Loc { span })))
                }
            },
        },
    }
}

/// Appends deep copies of the elements left in `it` to `dst`.
fn push_all(it: &mut ListIter, dst: &mut Vec<SExpr>)
    ensures
        seq_view(final(dst)@) == seq_view(old(dst)@) + old(it).rest(),
{
    let ghost d0 = seq_view(dst@);
    let ghost all = it.rest();
    assert(d0 + all =~= d0 + all);
    while !it.is_empty()
        invariant
            all == old(it).rest(),
            d0 == seq_view(old(dst)@),
            d0 + all == seq_view(dst@) + it.rest(),
        decreases it.elems@.len(),
    {
        let ghost r0 = it.elems@;
        let ghost before = seq_view(dst@);
        proof {
            lemma_seq_view_drop_first(r0);
        }
        match it.next() {
            Some(e) => {
                push_expr(dst, e);
                assert(before + seq_view(r0) =~= seq_view(dst@) + it.rest());
            },
            None => {},
        }
    }
    assert(seq_view(dst@) + it.rest() =~= seq_view(dst@));
}

/// Reads into `res` the section `current` of a problem definition.
fn read_problem_property(current: &SExpr, res: &mut Problem) -> (r: Result<(), ErrLoc>)
    ensures
        match problem_property(current@, old(res)@) {
            Ok(p) => r is Ok && final(res)@ == p,
            Err(x) => r matches Err(er) && er@ == x,
        },
{
    let mut property = match current.as_list_iter() {
        Some(p) => p,
        None => return Err(current.invalid(string_of("Expected a list"))),
    };
    let key = match property.pop_atom() {
        Ok(k) => k,
        Err(x) => return Err(x),
    };
    if key.is(":objects") {
        let objects = match consume_typed_symbols(&mut property) {
            Ok(ts) => ts,
            Err(x) => return Err(x),
        };
        let ghost o0 = res.objects@;
        let ghost p0 = res@;
        let mut i: usize = 0;
        while i < objects.len()
            invariant
                i <= objects@.len(),
                res@ == (ProblemV { objects: typed_view(res.objects@), ..p0 }),
                typed_view(res.objects@) == typed_view(o0) + typed_view(objects@.subrange(0, i as int)),
            decreases objects@.len() - i,
        {
            let ghost before = res.objects@;
            let o = TypedSymbol {
                symbol: objects[i].symbol.copy(),
                tpe: match &objects[i].tpe {
                    Some(t) => Some(t.copy()),
                    None => None,
                },
            };
            res.objects.push(o);
            proof {
                assert(typed_view(res.objects@) =~= typed_view(before).push(objects@[i as int]@));
                assert(typed_view(objects@.subrange(0, i + 1)) =~= typed_view(objects@.subrange(0, i as int)).push(objects@[i as int]@));
            }
            i = i + 1;
        }
        assert(objects@.subrange(0, i as int) =~= objects@);
        Ok(())
    } else if key.is(":init") {
        push_all(&mut property, &mut res.init);
        Ok(())
    } else if key.is(":goal") {
        push_all(&mut property, &mut res.goal);
        Ok(())
    } else if key.is(":htn") {
        if res.task_network.is_some() {
            return Err(current.invalid(string_of("More than one task network specified")));
        }
        let tn = match parse_task_network(property) {
            Ok(tn) => tn,
            Err(x) => return Err(x),
        };
        res.task_network = Some(tn);
        Ok(())
    } else {
        Err(current.invalid(string_of("unsupported block")))
    }
}

/// The problem `p` after reading the sections `props` of its definition, in order.
pub open spec fn problem_properties(props: Seq<SExprV>, p: ProblemV) -> Result<ProblemV, ErrV>
    decreases props.len(),
{
    if props.len() == 0 {
        Ok(p)
    } else {
        match problem_property(props[0], p) {
            Err(x) => Err(x),
            Ok(p2) => problem_properties(props.drop_first(), p2),
        }
    }
}

/// Reading of a problem definition `(define (problem NAME) (:domain NAME) sections...)`.
pub open spec fn problem_v(e: SExprV) -> Result<ProblemV, ErrV> {
    match e {
        SExprV::Atom(_, l) => Err(err_at("Expected a list"@, l)),
        SExprV::List(l, span) => match pop_known_atom_v(l, span.end, "define"@) {
            Err(x) => Err(x),
            Ok(_) => match pop_list_v(l.drop_first(), span.end) {
                Err(x) => Err(err_ctx(x, "Expected problem name definition of the form '(problem XXXXXX)'"@)),
                Ok((pl, pspan)) => match pop_known_atom_v(pl, pspan.end, "problem"@) {
                    Err(x) => Err(x),
                    Ok(_) => match pop_atom_v(pl.drop_first(), pspan.end) {
                        Err(x) => Err(x),
                        Ok(problem_name) => match pop_list_v(l.skip(2), span.end) {
                            Err(x) => Err(x),
                            Ok((dl, dspan)) => match pop_known_atom_v(dl, dspan.end, ":domain"@) {
                                Err(x) => Err(x),
                                Ok(_) => match pop_atom_v(dl.drop_first(), dspan.end) {
                                    Err(x) => Err(x),
                                    Ok(domain_name) => problem_properties(l.skip(3), ProblemV {
                                        problem_name,
                                        domain_name,
                                        objects: seq![],
                                        init: seq![],
                                        task_network: None,
                                        goal: seq![],
                                    }),
                                },
                            },
                        },
                    },
                },
            },
        },
    }
}

/// Reads a problem definition `(define (problem NAME) (:domain NAME) sections...)`.
pub fn read_problem(problem: SExpr) -> (res: Result<Problem, ErrLoc>)
    ensures
        match problem_v(problem@) {
            Ok(p) => res matches Ok(r) && r@ == p,
            Err(x) => res matches Err(er) && er@ == x,
        },
{
    let mut it = match problem.as_list_iter() {
        Some(it) => it,
        None => return Err(problem.invalid(string_of("Expected a list"))),
    };
    let ghost all = it.rest();
    match it.pop_known_atom("define") {
        Ok(_) => {},
        Err(x) => return Err(x),
    }
    let name_decl = match it.pop_list() {
        Ok(l) => l,
        Err(x) => return Err(x.ctx(string_of("Expected problem name definition of the form '(problem XXXXXX)'"))),
    };
    proof {
        assert(all.drop_first().drop_first() =~= all.skip(2));
    }
    let mut name_it = name_decl.iter();
    match name_it.pop_known_atom("problem") {
        Ok(_) => {},
        Err(x) => return Err(x),
    }
    let problem_name = match name_it.pop_atom() {
        Ok(a) => a.copy(),
        Err(x) => return Err(x),
    };
    let domain_decl = match it.pop_list() {
        Ok(l) => l,
        Err(x) => return Err(x),
    };
    proof {
        assert(all.skip(2).drop_first() =~= all.skip(3));
    }
    let mut domain_it = domain_decl.iter();
    match domain_it.pop_known_atom(":domain") {
        Ok(_) => {},
        Err(x) => return Err(x),
    }
    let domain_name = match domain_it.pop_atom() {
        Ok(a) => a.copy(),
        Err(x) => return Err(x),
    };
    let mut res = Problem {
        problem_name,
        domain_name,
        objects: Vec::new(),
        init: Vec::new(),
        task_network: None,
        goal: Vec::new(),
    };
    proof {
        assert(res@.objects =~= Seq::<TypedSymbolV>::empty());
        assert(res@.init =~= Seq::<SExprV>::empty());
        assert(res@.goal =~= Seq::<SExprV>::empty());
    }
    let ghost goal = problem_v(problem@);
    while !it.is_empty()
        invariant
            goal == problem_v(problem@),
            goal == problem_properties(it.rest(), res@),
        decreases it.elems@.len(),
    {
        let ghost r0 = it.elems@;
        proof {
            lemma_seq_view_drop_first(r0);
        }
        let current = match it.next() {
            Some(c) => c,
            None => return Ok(res),
        };
        match read_problem_property(current, &mut res) {
            Ok(()) => {},
            Err(x) => return Err(x),
        }
    }
    Ok(res)
}

/// Parses a domain from its text: the error of the s-expression parser, or of the reading of
/// the domain within the context "Invalid domain".
pub fn parse_pddl_domain(pb: Input) -> (res: Result<Domain, ErrLoc>)
    requires
        pb.text.len() < u32::MAX,
        ascii_text(pb.text@),
    ensures
        match spec_parse(pb.text@) {
            Err(m) => res matches Err(er) && er@ == err_at(m, None),
            Ok(e) => match domain_v(e) {
                Ok(d) => res matches Ok(r) && r@ == d,
                Err(x) => res matches Err(er) && er@ == err_ctx(x, "Invalid domain"@),
            },
        },
{
    let expr = match parse_input(&pb) {
        Ok(e) => e,
        Err(x) => return Err(x),
    };
    match read_domain(expr) {
        Ok(d) => Ok(d),
        Err(x) => Err(x.ctx(string_of("Invalid domain"))),
    }
}

/// Parses a problem from its text: the error of the s-expression parser, or of the reading of
/// the problem within the context "Invalid problem".
pub fn parse_pddl_problem(pb: Input) -> (res: Result<Problem, ErrLoc>)
    requires
        pb.text.len() < u32::MAX,
        ascii_text(pb.text@),
    ensures
        match spec_parse(pb.text@) {
            Err(m) => res matches Err(er) && er@ == err_at(m, None),
            Ok(e) => match problem_v(e) {
                Ok(p) => res matches Ok(r) && r@ == p,
                Err(x) => res matches Err(er) && er@ == err_ctx(x, "Invalid problem"@),
            },
        },
{
    let expr = match parse_input(&pb) {
        Ok(e) => e,
        Err(x) => return Err(x),
    };
    match read_problem(expr) {
        Ok(p) => Ok(p),
        Err(x) => Err(x.ctx(string_of("Invalid problem"))),
    }
}


/// What `regex::Regex::new(pattern)` and then `captures_iter(haystack)` give: `None` if the
/// pattern is invalid, else for each match, in order, the text of each group (the whole match
/// first), `None` for a group that took no part in it.
pub uninterp spec fn regex_captures(pattern: Seq<char>, haystack: Seq<char>) -> Option<Seq<Seq<Option<Seq<char>>>>>;

/// Values of the groups of one match.
pub open spec fn groups_view(g: Vec<Option<String>>) -> Seq<Option<Seq<char>>> {
    g@.map_values(|o: Option<String>| match o {
        Some(s) => Some(s@),
        None => None,
    })
}

/// Values of the groups of all matches.
pub open spec fn captures_view(c: Option<Vec<Vec<Option<String>>>>) -> Option<Seq<Seq<Option<Seq<char>>>>> {
    match c {
        Some(v) => Some(v@.map_values(|g: Vec<Option<String>>| groups_view(g))),
        None => None,
    }
}

/// Calls `regex::Regex::new(pattern)` and, if the pattern is valid, `captures_iter(haystack)`,
/// and collects the groups of each match (`Captures::iter`) as strings. The contract claims
/// only that the result is `regex_captures` of the two texts: the same texts give the same
/// groups.
#[verifier::external_body]
fn captures_all(pattern: &str, haystack: &str) -> (res: Option<Vec<Vec<Option<String>>>>)
    ensures
        captures_view(res) == regex_captures(pattern@, haystack@),
{
    match regex::Regex::new(pattern) {
        Ok(re) => Some(
            re.captures_iter(haystack).map(|c| c.iter().map(|g| g.map(|m| m.as_str().to_string())).collect()).collect(),
        ),
        Err(_) => None,
    }
}

/// Pattern of problem files named `XXXXX.YY.pb.Zddl` or `XXXXX.pb.Zddl`.
pub open spec fn pb_pattern() -> Seq<char> {
    "([^\\.]+)(\\.[^\\.]+)?\\.pb\\.([hp]ddl)"@
}

/// Pattern of problem files named `XXXXX.Zddl`.
pub open spec fn xddl_pattern() -> Seq<char> {
    "([^\\.]+)\\.([hp]ddl)"@
}

/// Names `prefix + g[i] + middle + g[j]` for each match `g` of `caps` where groups `i` and `j`
/// took part.
pub open spec fn names_from_groups(
    caps: Seq<Seq<Option<Seq<char>>>>,
    i: int,
    middle: Seq<char>,
    j: int,
) -> Seq<Seq<char>>
    decreases caps.len(),
{
    if caps.len() == 0 {
        seq![]
    } else {
        let g = caps.last();
        let before = names_from_groups(caps.drop_last(), i, middle, j);
        if g.len() > i && g.len() > j && g[i] is Some && g[j] is Some {
            before.push(g[i]->Some_0 + middle + g[j]->Some_0)
        } else {
            before
        }
    }
}

/// The names of the candidate domain files of a problem file named `problem_filename`, whose
/// extension is `extension`: `domain` with the same extension (`domain.pddl` if there is
/// none), then `XXXXX.dom.Zddl` for each match of `XXXXX.YY.pb.Zddl` or `XXXXX.pb.Zddl`, then
/// `XXXXX-domain.Zddl` for each match of `XXXXX.Zddl`.
pub open spec fn candidate_names(extension: Option<Seq<char>>, problem_filename: Seq<char>) -> Seq<Seq<char>> {
    let first = match extension {
        Some(e) => if e.len() == 0 {
            "domain"@
        } else {
            "domain."@ + e
        },
        None => "domain.pddl"@,
    };
    let pb = match regex_captures(pb_pattern(), problem_filename) {
        Some(c) => names_from_groups(c, 1, ".dom."@, 3),
        None => seq![],
    };
    let xddl = match regex_captures(xddl_pattern(), problem_filename) {
        Some(c) => names_from_groups(c, 1, "-domain."@, 2),
        None => seq![],
    };
    seq![first] + pb + xddl
}

/// Appends `g[i] + middle + g[j]` to `out` for each match `g` of `caps` where groups `i` and
/// `j` took part.
pub fn push_names_from_groups(caps: &Vec<Vec<Option<String>>>, i: usize, middle: &str, j: usize, out: &mut Vec<String>)
    ensures
        final(out)@.map_values(|s: String| s@) == old(out)@.map_values(|s: String| s@) + names_from_groups(
            caps@.map_values(|g: Vec<Option<String>>| groups_view(g)),
            i as int,
            middle@,
            j as int,
        ),
{
    let ghost o0 = out@.map_values(|s: String| s@);
    let ghost all = caps@.map_values(|g: Vec<Option<String>>| groups_view(g));
    let mut k: usize = 0;
    assert(all.subrange(0, 0) =~= Seq::<Seq<Option<Seq<char>>>>::empty());
    assert(o0 + Seq::<Seq<char>>::empty() =~= o0);
    while k < caps.len()
        invariant
            k <= caps@.len(),
            all == caps@.map_values(|g: Vec<Option<String>>| groups_view(g)),
            out@.map_values(|s: String| s@) == o0 + names_from_groups(all.subrange(0, k as int), i as int, middle@, j as int),
        decreases caps@.len() - k,
    {
        let g = &caps[k];
        let ghost before = out@;
        proof {
            assert(all.subrange(0, k + 1).drop_last() =~= all.subrange(0, k as int));
            assert(all.subrange(0, k + 1).last() == groups_view(*g));
        }
        if g.len() > i && g.len() > j {
            match (&g[i], &g[j]) {
                (Some(a), Some(b)) => {
                    let mut name = a.clone();
                    name.append(middle);
                    name.append(b.as_str());
                    out.push(name);
                    proof {
                        assert(groups_view(*g)[i as int] == Some(a@));
                        assert(groups_view(*g)[j as int] == Some(b@));
                        assert(out@.map_values(|s: String| s@) =~= before.map_values(|s: String| s@).push(a@ + middle@ + b@));
                    }
                },
                _ => {
                    proof {
                        assert(groups_view(*g)[i as int] is None || groups_view(*g)[j as int] is None);
                    }
                },
            }
        }
        k = k + 1;
    }
    assert(all.subrange(0, k as int) =~= all);
}

/// The names of the files that may hold the domain of the problem file named
/// `problem_filename` (whose extension is `extension`), in the order in which they are looked
/// for in the directory of the problem and then its parent.
pub fn candidate_domain_files(extension: Option<&str>, problem_filename: &str) -> (res: Vec<String>)
    ensures
        res@.map_values(|s: String| s@) == candidate_names(
            match extension {
                Some(e) => Some(e@),
                None => None,
            },
            problem_filename@,
        ),
{
    let mut res: Vec<String> = Vec::new();
    let first = match extension {
        Some(e) => {
            if e.unicode_len() == 0 {
                string_of("domain")
            } else {
                let mut n = string_of("domain.");
                n.append(e);
                n
            }
        },
        None => string_of("domain.pddl"),
    };
    res.push(first);
    let ghost r1 = res@.map_values(|s: String| s@);
    let pb = captures_all("([^\\.]+)(\\.[^\\.]+)?\\.pb\\.([hp]ddl)", problem_filename);
    match &pb {
        Some(c) => push_names_from_groups(c, 1, ".dom.", 3, &mut res),
        None => {},
    }
    let ghost r2 = res@.map_values(|s: String| s@);
    let xddl = captures_all("([^\\.]+)\\.([hp]ddl)", problem_filename);
    match &xddl {
        Some(c) => push_names_from_groups(c, 1, "-domain.", 2, &mut res),
        None => {},
    }
    proof {
        reveal_strlit("([^\\.]+)(\\.[^\\.]+)?\\.pb\\.([hp]ddl)");
        reveal_strlit("([^\\.]+)\\.([hp]ddl)");
        let ext = match extension {
            Some(e) => Some(e@),
            None => None::<Seq<char>>,
        };
        let cn = candidate_names(ext, problem_filename@);
        assert(res@.map_values(|s: String| s@) =~= cn);
    }
    res
}

} // verus!
