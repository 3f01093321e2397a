//! The library's own form of the UPF planning problem and answer, converted from the messages
//! of the planning service.
use vstd::prelude::*;
use crate::upf::messages::{
    Action, ActionInstance, Answer, Assignment, Expression, Fluent, Object, Payload, Problem,
    SequentialPlan,
};

verus! {

#[derive(Debug, Default)]
pub struct Problem_ {
    pub name: String,
    pub fluents: Vec<Fluent_>,
    pub objects: Vec<Object_>,
    pub actions: Vec<Action_>,
    pub initial_state: Vec<Assignment_>,
    pub goals: Vec<Expression_>,
}

#[derive(Debug, Default, Clone)]
pub struct Fluent_ {
    pub name: String,
    pub value: String,
    pub signature: Vec<String>,
}

#[derive(Debug, Default, Clone)]
pub struct Object_ {
    pub name: String,
    pub type_: String,
}

#[derive(Debug, Default)]
pub struct Assignment_ {
    pub x: Option<Expression_>,
    pub v: Option<Expression_>,
}

#[derive(Debug, Default)]
pub struct Expression_ {
    pub type_: String,
    pub args: Vec<Expression_>,
    pub payload: Option<Payload_>,
}

#[derive(Debug, Default, Clone)]
pub struct Payload_ {
    pub type_: String,
    pub value: String,
}

#[derive(Debug, Default)]
pub struct Action_ {
    pub name: String,
    pub parameters: Vec<String>,
    pub parameter_types: Vec<String>,
    pub preconditions: Vec<Expression_>,
    pub effects: Vec<Assignment_>,
}

#[derive(Debug, Default)]
pub struct ActionInstance_ {
    pub action: Option<Action_>,
    pub parameters: Vec<Expression_>,
}

#[derive(Debug, Default)]
pub struct SequentialPlan_ {
    pub actions: Vec<ActionInstance_>,
}

#[derive(Debug, Default)]
pub struct Answer_ {
    pub status: i32,
    pub plan: Option<SequentialPlan_>,
}

/// Mathematical value of a payload: its type and its value.
pub struct PayloadV {
    pub type_: Seq<char>,
    pub value: Seq<char>,
}

/// Mathematical value of an expression (of the library or of a message).
pub struct ExprV {
    pub type_: Seq<char>,
    pub args: Seq<ExprV>,
    pub payload: Option<PayloadV>,
}

pub open spec fn payload_v(p: Option<Payload_>) -> Option<PayloadV> {
    match p {
        Some(p) => Some(PayloadV { type_: p.type_@, value: p.value@ }),
        None => None,
    }
}

pub open spec fn msg_payload_v(p: Option<Payload>) -> Option<PayloadV> {
    match p {
        Some(p) => Some(PayloadV { type_: p.type_@, value: p.value@ }),
        None => None,
    }
}

pub open spec fn expr_v(e: Expression_) -> ExprV
    decreases e,
{
    ExprV { type_: e.type_@, args: exprs_v(e.args@), payload: payload_v(e.payload) }
}

pub open spec fn exprs_v(s: Seq<Expression_>) -> Seq<ExprV>
    decreases s,
{
    if s.len() == 0 {
        seq![]
    } else {
        exprs_v(s.drop_last()).push(expr_v(s.last()))
    }
}

pub open spec fn msg_expr_v(e: Expression) -> ExprV
    decreases e,
{
    ExprV { type_: e.type_@, args: msg_exprs_v(e.args@), payload: msg_payload_v(e.payload) }
}

pub open spec fn msg_exprs_v(s: Seq<Expression>) -> Seq<ExprV>
    decreases s,
{
    if s.len() == 0 {
        seq![]
    } else {
        msg_exprs_v(s.drop_last()).push(msg_expr_v(s.last()))
    }
}

/// The conversion of an expression: types are not carried over (they are left empty), the
/// arguments are converted and the payload keeps its value.
pub open spec fn conv_expr(e: ExprV) -> ExprV
    decreases e,
{
    ExprV {
        type_: seq![],
        args: conv_exprs(e.args),
        payload: match e.payload {
            Some(p) => Some(PayloadV { type_: seq![], value: p.value }),
            None => None,
        },
    }
}

pub open spec fn conv_exprs(s: Seq<ExprV>) -> Seq<ExprV>
    decreases s,
{
    if s.len() == 0 {
        seq![]
    } else {
        conv_exprs(s.drop_last()).push(conv_expr(s.last()))
    }
}

pub open spec fn opt_expr_v(e: Option<Expression_>) -> Option<ExprV> {
    match e {
        Some(e) => Some(expr_v(e)),
        None => None,
    }
}

pub open spec fn conv_opt_msg_expr(e: Option<Expression>) -> Option<ExprV> {
    match e {
        Some(e) => Some(conv_expr(msg_expr_v(e))),
        None => None,
    }
}

/// An empty string.
fn empty_string() -> (res: String)
    ensures
        res@ == Seq::<char>::empty(),
{
    String::new()
}

impl Problem_ {
    /// The problem of a message: name kept, every list converted.
    pub fn parse_problem(msg: Problem) -> (res: Problem_)
        ensures
            res.name@ == msg.name@,
            res.fluents@.len() == msg.fluents@.len(),
            forall|i: int| 0 <= i < msg.fluents@.len() ==> fluent_converted(#[trigger] msg.fluents@[i], res.fluents@[i]),
            res.objects@.len() == msg.objects@.len(),
            forall|i: int| 0 <= i < msg.objects@.len() ==> object_converted(#[trigger] msg.objects@[i], res.objects@[i]),
            res.actions@.len() == msg.actions@.len(),
            forall|i: int| 0 <= i < msg.actions@.len() ==> action_converted(#[trigger] msg.actions@[i], res.actions@[i]),
            res.initial_state@.len() == msg.initial_state@.len(),
            forall|i: int| 0 <= i < msg.initial_state@.len() ==> assignment_converted(#[trigger] msg.initial_state@[i], res.initial_state@[i]),
            exprs_v(res.goals@) == conv_exprs(msg_exprs_v(msg.goals@)),
    {
        Problem_ {
            name: msg.name,
            fluents: Fluent_::parse_fluents(msg.fluents),
            objects: Object_::parse_objects(msg.objects),
            actions: Action_::parse_actions(msg.actions),
            initial_state: Assignment_::parse_assignments(msg.initial_state),
            goals: Expression_::parse_args(msg.goals),
        }
    }
}

/// A fluent converted from a message: name kept, value type as value, signature kept.
pub open spec fn fluent_converted(m: Fluent, f: Fluent_) -> bool {
    &&& f.name@ == m.name@
    &&& f.value@ == m.value_type@
    &&& f.signature@ == m.signature@
}

impl Fluent_ {
    /// A fluent with empty name, value and signature.
    pub fn new() -> (res: Self)
        ensures
            res.name@.len() == 0,
            res.value@.len() == 0,
            res.signature@.len() == 0,
    {
        Fluent_ { name: empty_string(), value: empty_string(), signature: vec![] }
    }

    /// The fluents of a message list, in the same order.
    pub fn parse_fluents(msg: Vec<Fluent>) -> (res: Vec<Fluent_>)
        ensures
            res@.len() == msg@.len(),
            forall|i: int| 0 <= i < msg@.len() ==> fluent_converted(#[trigger] msg@[i], res@[i]),
    {
        let mut fluents: Vec<Fluent_> = vec![];
        let mut msg = msg;
        let ghost orig = msg@;
        while msg.len() > 0
            invariant
                fluents@.len() + msg@.len() == orig.len(),
                msg@ == orig.subrange(fluents@.len() as int, orig.len() as int),
                forall|i: int| 0 <= i < fluents@.len() ==> fluent_converted(#[trigger] orig[i], fluents@[i]),
            decreases msg@.len(),
        {
            let fluent = msg.remove(0);
            fluents.push(Fluent_ { name: fluent.name, value: fluent.value_type, signature: fluent.signature });
            assert(msg@ =~= orig.subrange(fluents@.len() as int, orig.len() as int));
        }
        fluents
    }
}

/// An object converted from a message: name kept, type left empty.
pub open spec fn object_converted(m: Object, o: Object_) -> bool {
    &&& o.name@ == m.name@
    &&& o.type_@.len() == 0
}

impl Object_ {
    /// An object with empty name and type.
    pub fn new() -> (res: Self)
        ensures
            res.name@.len() == 0,
            res.type_@.len() == 0,
    {
        Object_ { name: empty_string(), type_: empty_string() }
    }

    /// The objects of a message list, in the same order.
    pub fn parse_objects(msg: Vec<Object>) -> (res: Vec<Object_>)
        ensures
            res@.len() == msg@.len(),
            forall|i: int| 0 <= i < msg@.len() ==> object_converted(#[trigger] msg@[i], res@[i]),
    {
        let mut objects: Vec<Object_> = vec![];
        let mut msg = msg;
        let ghost orig = msg@;
        while msg.len() > 0
            invariant
                objects@.len() + msg@.len() == orig.len(),
                msg@ == orig.subrange(objects@.len() as int, orig.len() as int),
                forall|i: int| 0 <= i < objects@.len() ==> object_converted(#[trigger] orig[i], objects@[i]),
            decreases msg@.len(),
        {
            let object = msg.remove(0);
            objects.push(Object_ { name: object.name, type_: empty_string() });
            assert(msg@ =~= orig.subrange(objects@.len() as int, orig.len() as int));
        }
        objects
    }
}

/// An assignment converted from a message: both sides converted.
pub open spec fn assignment_converted(m: Assignment, a: Assignment_) -> bool {
    &&& opt_expr_v(a.x) == conv_opt_msg_expr(m.x)
    &&& opt_expr_v(a.v) == conv_opt_msg_expr(m.v)
}

impl Assignment_ {
    /// The assignments of a message list, in the same order.
    pub fn parse_assignments(msg: Vec<Assignment>) -> (res: Vec<Assignment_>)
        ensures
            res@.len() == msg@.len(),
            forall|i: int| 0 <= i < msg@.len() ==> assignment_converted(#[trigger] msg@[i], res@[i]),
    {
        let mut assignments: Vec<Assignment_> = vec![];
        let mut msg = msg;
        let ghost orig = msg@;
        while msg.len() > 0
            invariant
                assignments@.len() + msg@.len() == orig.len(),
                msg@ == orig.subrange(assignments@.len() as int, orig.len() as int),
                forall|i: int| 0 <= i < assignments@.len() ==> assignment_converted(#[trigger] orig[i], assignments@[i]),
            decreases msg@.len(),
        {
            let assignment = msg.remove(0);
            let x = Expression_::parse_expressions(assignment.x);
            let v = Expression_::parse_expressions(assignment.v);
            assignments.push(Assignment_ { x, v });
            assert(msg@ =~= orig.subrange(assignments@.len() as int, orig.len() as int));
        }
        assignments
    }
}

impl Expression_ {
    /// The conversion of an optional expression of a message.
    pub fn parse_expressions(msg: Option<Expression>) -> (res: Option<Expression_>)
        ensures
            opt_expr_v(res) == conv_opt_msg_expr(msg),
    {
        match msg {
            Some(expression) => Some(Self::parse_expression(expression)),
            None => None,
        }
    }

    /// The conversion of an expression of a message.
    fn parse_expression(expression: Expression) -> (res: Expression_)
        ensures
            expr_v(res) == conv_expr(msg_expr_v(expression)),
        decreases expression,
    {
        let Expression { type_: _, args, payload } = expression;
        proof {
            assert(decreases_to!(expression => expression.args));
        }
        let args = Expression_::parse_args_of(args, Ghost(expression));
        let payload = Payload_::parse_payload(payload);
        let res = Expression_ { type_: empty_string(), args, payload };
        assert(expr_v(res).type_ =~= conv_expr(msg_expr_v(expression)).type_);
        res
    }

    /// The conversion of a list of expressions of a message, in the same order.
    pub fn parse_args(msg: Vec<Expression>) -> (res: Vec<Expression_>)
        ensures
            exprs_v(res@) == conv_exprs(msg_exprs_v(msg@)),
    {
        let mut args: Vec<Expression_> = vec![];
        let ghost orig = msg@;
        let mut rest = msg;
        while rest.len() > 0
            invariant
                args@.len() + rest@.len() == orig.len(),
                rest@ == orig.subrange(args@.len() as int, orig.len() as int),
                exprs_v(args@) == conv_exprs(msg_exprs_v(orig.subrange(0, args@.len() as int))),
            decreases rest@.len(),
        {
            let arg = rest.remove(0);
            let ghost k = args@.len();
            let a = Self::parse_expression(arg);
            proof {
                let p = orig.subrange(0, (k + 1) as int);
                assert(p.drop_last() =~= orig.subrange(0, k as int));
                assert(p.last() == arg);
                assert(msg_exprs_v(p) == msg_exprs_v(p.drop_last()).push(msg_expr_v(arg)));
                assert(msg_exprs_v(p).drop_last() =~= msg_exprs_v(orig.subrange(0, k as int)));
                assert(args@.push(a).drop_last() =~= args@);
            }
            args.push(a);
            assert(rest@ =~= orig.subrange(args@.len() as int, orig.len() as int));
        }
        assert(orig.subrange(0, orig.len() as int) =~= orig);
        args
    }

    /// `parse_args` on the arguments of `parent` (for the termination of the recursion).
    fn parse_args_of(msg: Vec<Expression>, Ghost(parent): Ghost<Expression>) -> (res: Vec<Expression_>)
        requires
            msg == parent.args,
        ensures
            exprs_v(res@) == conv_exprs(msg_exprs_v(msg@)),
        decreases parent, 0nat,
    {
        let mut args: Vec<Expression_> = vec![];
        let ghost orig = msg@;
        let mut rest = msg;
        while rest.len() > 0
            invariant
                args@.len() + rest@.len() == orig.len(),
                orig == parent.args@,
                rest@ == orig.subrange(args@.len() as int, orig.len() as int),
                exprs_v(args@) == conv_exprs(msg_exprs_v(orig.subrange(0, args@.len() as int))),
            decreases rest@.len(),
        {
            let ghost k = args@.len();
            let arg = rest.remove(0);
            proof {
                assert(arg == parent.args@[k as int]);
                assert(decreases_to!(parent => parent.args));
                assert(decreases_to!(parent.args => parent.args@));
                assert(decreases_to!(parent.args@ => parent.args@[k as int]));
            }
            let a = Self::parse_expression(arg);
            proof {
                let p = orig.subrange(0, (k + 1) as int);
                assert(p.drop_last() =~= orig.subrange(0, k as int));
                assert(p.last() == arg);
                assert(msg_exprs_v(p) == msg_exprs_v(p.drop_last()).push(msg_expr_v(arg)));
                assert(msg_exprs_v(p).drop_last() =~= msg_exprs_v(orig.subrange(0, k as int)));
                assert(args@.push(a).drop_last() =~= args@);
            }
            args.push(a);
            assert(rest@ =~= orig.subrange(args@.len() as int, orig.len() as int));
        }
        assert(orig.subrange(0, orig.len() as int) =~= orig);
        args
    }
}

impl Payload_ {
    /// A payload with empty type and value.
    pub fn new() -> (res: Self)
        ensures
            res.type_@.len() == 0,
            res.value@.len() == 0,
    {
        Payload_ { type_: empty_string(), value: empty_string() }
    }

    /// The conversion of an optional payload: type left empty, value kept.
    pub fn parse_payload(msg: Option<Payload>) -> (res: Option<Payload_>)
        ensures
            payload_v(res) == match msg {
                Some(p) => Some(PayloadV { type_: seq![], value: p.value@ }),
                None => None,
            },
    {
        match msg {
            Some(payload) => {
                let r = Payload_ { type_: empty_string(), value: payload.value };
                assert(r.type_@ =~= Seq::<char>::empty());
                Some(r)
            },
            None => None,
        }
    }
}

/// An action converted from a message: name, parameters and their types kept, preconditions
/// and effects converted.
pub open spec fn action_converted(m: Action, a: Action_) -> bool {
    &&& a.name@ == m.name@
    &&& a.parameters@ == m.parameters@
    &&& a.parameter_types@ == m.parameter_types@
    &&& exprs_v(a.preconditions@) == conv_exprs(msg_exprs_v(m.preconditions@))
    &&& a.effects@.len() == m.effects@.len()
    &&& forall|i: int| 0 <= i < m.effects@.len() ==> assignment_converted(#[trigger] m.effects@[i], a.effects@[i])
}

impl Action_ {
    /// An action with empty name and lists.
    pub fn new() -> (res: Self)
        ensures
            res.name@.len() == 0,
            res.parameters@.len() == 0,
            res.parameter_types@.len() == 0,
            res.preconditions@.len() == 0,
            res.effects@.len() == 0,
    {
        Action_ {
            name: empty_string(),
            parameters: vec![],
            parameter_types: vec![],
            preconditions: vec![],
            effects: vec![],
        }
    }

    fn parse_one(action: Action) -> (res: Action_)
        ensures
            action_converted(action, res),
    {
        let Action { name, parameters, parameter_types, preconditions, effects } = action;
        Action_ {
            name,
            parameters,
            parameter_types,
            preconditions: Expression_::parse_args(preconditions),
            effects: Assignment_::parse_assignments(effects),
        }
    }

    /// The actions of a message list, in the same order.
    pub fn parse_actions(msg: Vec<Action>) -> (res: Vec<Action_>)
        ensures
            res@.len() == msg@.len(),
            forall|i: int| 0 <= i < msg@.len() ==> action_converted(#[trigger] msg@[i], res@[i]),
    {
        let mut actions: Vec<Action_> = vec![];
        let mut msg = msg;
        let ghost orig = msg@;
        while msg.len() > 0
            invariant
                actions@.len() + msg@.len() == orig.len(),
                msg@ == orig.subrange(actions@.len() as int, orig.len() as int),
                forall|i: int| 0 <= i < actions@.len() ==> action_converted(#[trigger] orig[i], actions@[i]),
            decreases msg@.len(),
        {
            let action = msg.remove(0);
            actions.push(Self::parse_one(action));
            assert(msg@ =~= orig.subrange(actions@.len() as int, orig.len() as int));
        }
        actions
    }

    /// The conversion of an optional action of a message.
    pub fn parse_action(msg: Option<Action>) -> (res: Option<Action_>)
        ensures
            match msg {
                Some(m) => res matches Some(a) && action_converted(m, a),
                None => res is None,
            },
    {
        match msg {
            Some(action) => Some(Self::parse_one(action)),
            None => None,
        }
    }
}

/// An action instance converted from a message: action and parameters converted.
pub open spec fn action_instance_converted(m: ActionInstance, a: ActionInstance_) -> bool {
    &&& match m.action {
        Some(ma) => a.action matches Some(aa) && action_converted(ma, aa),
        None => a.action is None,
    }
    &&& exprs_v(a.parameters@) == conv_exprs(msg_exprs_v(m.parameters@))
}

impl ActionInstance_ {
    /// An instance of no action, without parameters.
    pub fn new() -> (res: Self)
        ensures
            res.action is None,
            res.parameters@.len() == 0,
    {
        ActionInstance_ { action: None, parameters: vec![] }
    }

    /// The action instances of a message list, in the same order.
    pub fn parse_action_instances(msg: Vec<ActionInstance>) -> (res: Vec<ActionInstance_>)
        ensures
            res@.len() == msg@.len(),
            forall|i: int| 0 <= i < msg@.len() ==> action_instance_converted(#[trigger] msg@[i], res@[i]),
    {
        let mut action_instances: Vec<ActionInstance_> = vec![];
        let mut msg = msg;
        let ghost orig = msg@;
        while msg.len() > 0
            invariant
                action_instances@.len() + msg@.len() == orig.len(),
                msg@ == orig.subrange(action_instances@.len() as int, orig.len() as int),
                forall|i: int| 0 <= i < action_instances@.len() ==> action_instance_converted(#[trigger] orig[i], action_instances@[i]),
            decreases msg@.len(),
        {
            let action_instance = msg.remove(0);
            let ActionInstance { action, parameters } = action_instance;
            action_instances.push(ActionInstance_ {
                action: Action_::parse_action(action),
                parameters: Expression_::parse_args(parameters),
            });
            assert(msg@ =~= orig.subrange(action_instances@.len() as int, orig.len() as int));
        }
        action_instances
    }
}

/// A plan converted from a message: its action instances converted, in the same order.
pub open spec fn plan_converted(m: SequentialPlan, p: SequentialPlan_) -> bool {
    &&& p.actions@.len() == m.actions@.len()
    &&& forall|i: int| 0 <= i < m.actions@.len() ==> action_instance_converted(#[trigger] m.actions@[i], p.actions@[i])
}

impl SequentialPlan_ {
    /// The empty plan.
    pub fn new() -> (res: Self)
        ensures
            res.actions@.len() == 0,
    {
        SequentialPlan_ { actions: vec![] }
    }

    /// The conversion of an optional plan of a message.
    pub fn parse_sequential_plan(msg: Option<SequentialPlan>) -> (res: Option<SequentialPlan_>)
        ensures
            match msg {
                Some(m) => res matches Some(p) && plan_converted(m, p),
                None => res is None,
            },
    {
        match msg {
            Some(sequential_plan) => Some(SequentialPlan_ {
                actions: ActionInstance_::parse_action_instances(sequential_plan.actions),
            }),
            None => None,
        }
    }
}

impl Answer_ {
    /// The answer of status 0 without plan.
    pub fn new() -> (res: Self)
        ensures
            res.status == 0,
            res.plan is None,
    {
        Answer_ { status: 0, plan: None }
    }

    /// The conversion of an optional answer of a message: status kept, plan converted.
    pub fn parse_answer(msg: Option<Answer>) -> (res: Option<Answer_>)
        ensures
            match msg {
                Some(m) => res matches Some(a) && a.status == m.status && match m.plan {
                    Some(mp) => a.plan matches Some(p) && plan_converted(mp, p),
                    None => a.plan is None,
                },
                None => res is None,
            },
    {
        match msg {
            Some(answer) => Some(Answer_ {
                status: answer.status,
                plan: SequentialPlan_::parse_sequential_plan(answer.plan),
            }),
            None => None,
        }
    }
}

} // verus!
