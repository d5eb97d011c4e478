//! The evaluator: walks a syntax tree bottom-up and gives every node its
//! value.
use vstd::prelude::*;
use vstd::string::*;
use crate::ast::{levels_ok, node_levels_ok, nodes_levels_ok, Ast, AstNode, NodeView};
use crate::environment::{recalled, Environment};
use crate::errors::{
    framed, framed_message, SyntaxError, SyntaxErrorView, ValueError, ValueErrorView,
};
use crate::numerals::numeral_value;
use crate::operations::{
    absolute, arithmetic, bitwise, bitwise_negated, factorial_of, is_zero, logically_negated,
    negated, ordering, shifted, sine_of, truth, Arithmetic, Bitwise,
};
use crate::position::Position;
use crate::store::{lowercase_of, StoreView};
use crate::text::{chars_are, string_of};
use crate::tokens::{Token, TokenType, TokenView};
use crate::values::{to_integer, Computed, Value, ValueView};
use crate::integers::Integer;

verus! {

/// The family of an [`EvalError`].
#[derive(Debug, Copy, Clone, PartialEq, Eq, Structural)]
pub enum ErrorKind {
    /// Malformed input.
    Syntax,
    /// A conversion would have lost information.
    Conversion,
    /// An operation outside its domain.
    InvalidOperation,
}

/// An error of evaluation, with the place of the node that it came from.
#[derive(Debug)]
pub struct EvalError {
    pub kind: ErrorKind,
    pub msg: String,
    pub position: Position,
}

/// What an [`EvalError`] says, as plain data.
pub ghost struct EvalErrorView {
    pub kind: ErrorKind,
    pub msg: Seq<char>,
    pub position: Position,
}

impl View for EvalError {
    type V = EvalErrorView;

    open spec fn view(&self) -> EvalErrorView {
        EvalErrorView { kind: self.kind, msg: self.msg@, position: self.position }
    }
}

/// A syntax error at `position`.
pub open spec fn syntax_error(msg: Seq<char>, position: Position) -> EvalErrorView {
    EvalErrorView { kind: ErrorKind::Syntax, msg, position }
}

/// The error of an operation on values, placed at `position`.
pub open spec fn value_error(e: ValueErrorView, position: Position) -> EvalErrorView {
    match e {
        ValueErrorView::Conversion(msg) => EvalErrorView {
            kind: ErrorKind::Conversion,
            msg,
            position,
        },
        ValueErrorView::InvalidOperation(msg) => EvalErrorView {
            kind: ErrorKind::InvalidOperation,
            msg,
            position,
        },
    }
}

/// The message for a variable that is not bound.
pub open spec fn undefined_variable(name: Seq<char>) -> Seq<char> {
    framed("The variable \""@, name, "\" is undefined"@)
}

/// The message for an operator that has no meaning.
pub open spec fn undefined_operator(name: Seq<char>) -> Seq<char> {
    framed("The operator \""@, name, "\" is undefined"@)
}

/// The message for a function that has no meaning.
pub open spec fn undefined_function(name: Seq<char>) -> Seq<char> {
    framed("The function \""@, name, "\" is undefined"@)
}

/// The message for an assignment to something that is no variable.
pub open spec fn not_assignable() -> Seq<char> {
    "The left-hand side of \":=\" must be a variable"@
}

/// The message for an assignment to a readonly variable.
pub open spec fn readonly_variable(name: Seq<char>) -> Seq<char> {
    framed("The variable \""@, name, "\" is readonly"@)
}

/// The message for parentheses that hold no single value.
pub open spec fn not_one_value() -> Seq<char> {
    "The expression in parentheses does not reduce to a single value"@
}

/// The message for a slot of the results that is no whole number from zero
/// on.
pub open spec fn bad_slot() -> Seq<char> {
    "The memory slot must be a non-negative integer"@
}

/// The result that `mem` recalls for the slot `v`.
pub open spec fn remembered(v: ValueView, results: Seq<ValueView>) -> Computed {
    match to_integer(v) {
        Ok(slot) => if slot >= 0 {
            Ok(recalled(results, slot))
        } else {
            Err(ValueErrorView::InvalidOperation(bad_slot()))
        },
        Err(_) => Err(ValueErrorView::InvalidOperation(bad_slot())),
    }
}

/// What the unary operator spelled `op` makes of `v`, or `None` where the
/// spelling has no meaning.
pub open spec fn unary_operation(op: Seq<char>, v: ValueView) -> Option<Computed> {
    if op == "+"@ {
        Some(Ok(v))
    } else if op == "-"@ {
        Some(negated(v))
    } else if op == "!"@ {
        Some(factorial_of(v))
    } else if op == "¬"@ {
        Some(Ok(logically_negated(v)))
    } else if op == "~"@ {
        Some(bitwise_negated(v))
    } else {
        None
    }
}

/// What the unary function named `name` makes of `v`, or `None` where the
/// name has no meaning.
pub open spec fn unary_function(name: Seq<char>, v: ValueView, results: Seq<ValueView>)
    -> Option<Computed> {
    if name == "abs"@ {
        Some(absolute(v))
    } else if name == "not"@ {
        Some(Ok(logically_negated(v)))
    } else if name == "sin"@ {
        Some(sine_of(v))
    } else if name == "mem"@ {
        Some(remembered(v, results))
    } else {
        None
    }
}

/// What the binary operator spelled `op` makes of `a` and `b`, or `None`
/// where the spelling has no meaning. Comparisons and the logical operators
/// give one for true and zero for false; the bitwise operators and the
/// shifts work on bit sequences.
pub open spec fn binary_operation(op: Seq<char>, a: ValueView, b: ValueView) -> Option<Computed> {
    if op == "+"@ {
        Some(arithmetic(Arithmetic::Add, a, b))
    } else if op == "-"@ {
        Some(arithmetic(Arithmetic::Sub, a, b))
    } else if op == "*"@ {
        Some(arithmetic(Arithmetic::Mul, a, b))
    } else if op == "/"@ {
        Some(arithmetic(Arithmetic::Div, a, b))
    } else if op == "%"@ {
        Some(arithmetic(Arithmetic::Rem, a, b))
    } else if op == "^"@ {
        Some(arithmetic(Arithmetic::Pow, a, b))
    } else if op == "<"@ {
        Some(Ok(truth(ordering(a, b) < 0)))
    } else if op == ">"@ {
        Some(Ok(truth(ordering(a, b) > 0)))
    } else if op == "<="@ {
        Some(Ok(truth(ordering(a, b) <= 0)))
    } else if op == ">="@ {
        Some(Ok(truth(ordering(a, b) >= 0)))
    } else if op == "=="@ {
        Some(Ok(truth(ordering(a, b) == 0)))
    } else if op == "!="@ {
        Some(Ok(truth(ordering(a, b) != 0)))
    } else if op == "<=>"@ {
        Some(Ok(ValueView::Integer(ordering(a, b))))
    } else if op == "&"@ {
        Some(bitwise(Bitwise::And, a, b))
    } else if op == "|"@ {
        Some(bitwise(Bitwise::Or, a, b))
    } else if op == "^|"@ {
        Some(bitwise(Bitwise::Xor, a, b))
    } else if op == "<<"@ {
        Some(shifted(true, a, b))
    } else if op == ">>"@ {
        Some(shifted(false, a, b))
    } else if op == "&&"@ {
        Some(Ok(truth(!is_zero(a) && !is_zero(b))))
    } else if op == "||"@ {
        Some(Ok(truth(!is_zero(a) || !is_zero(b))))
    } else {
        None
    }
}

/// The assignment operator.
pub open spec fn is_assignment(t: TokenView) -> bool {
    t.type_ is BinaryOperator && t.content == ":="@
}

/// The node `n` with the value `v`.
pub open spec fn valued(n: NodeView, v: ValueView) -> NodeView {
    NodeView { value: Some(v), ..n }
}

/// A node after evaluation, the variables after it, and the error that
/// stopped the evaluation, if one did.
pub ghost struct Step {
    pub node: NodeView,
    pub store: StoreView,
    pub error: Option<EvalErrorView>,
}

/// A sequence of nodes after evaluation, the variables after it, and the
/// error that stopped the evaluation, if one did.
pub ghost struct Steps {
    pub nodes: Seq<NodeView>,
    pub store: StoreView,
    pub error: Option<EvalErrorView>,
}

/// The operands of a node after evaluation, the variables after it, and the
/// value of the node, or the error that left it without one.
pub ghost struct Operated {
    pub operands: Seq<NodeView>,
    pub store: StoreView,
    pub value: Result<ValueView, EvalErrorView>,
}

/// The value that an operator or function gives a node, or its error.
pub type Applied = Result<ValueView, EvalErrorView>;

/// Whether a node can be evaluated: it has a value, or it is a terminal, or
/// it has operands that can be evaluated, one below a unary operator or
/// function, two below a binary one, any number in parentheses.
pub open spec fn node_evaluable(n: NodeView) -> bool
    decreases n,
{
    n.value is Some || n.token.type_.spec_is_terminal() || (n.children matches Some(c) && {
        &&& n.token.type_.spec_is_unary() ==> c.len() == 1
        &&& !n.token.type_.spec_is_unary() && !(n.token.type_ is Expression) ==> c.len() == 2
        &&& forall|i: int| 0 <= i < c.len() ==> node_evaluable(#[trigger] c[i])
    })
}

/// Whether every node of `nodes` can be evaluated.
pub open spec fn evaluable(nodes: Seq<NodeView>) -> bool {
    forall|i: int| 0 <= i < nodes.len() ==> node_evaluable(#[trigger] nodes[i])
}

/// The outcome of an operation as the outcome of the node that it belongs
/// to: its value, or its error at `position`. `None` stands for an operation
/// without meaning, whose message is `undefined`.
pub open spec fn settled(outcome: Option<Computed>, undefined: Seq<char>, position: Position)
    -> Applied {
    match outcome {
        None => Err(syntax_error(undefined, position)),
        Some(Err(e)) => Err(value_error(e, position)),
        Some(Ok(v)) => Ok(v),
    }
}

/// What the operator or function of token `t` makes of the values of the
/// evaluated operands `operands`.
pub open spec fn applied(t: TokenView, operands: Seq<NodeView>, results: Seq<ValueView>)
    -> Applied {
    if t.type_ is Expression {
        if operands.len() == 1 {
            Ok(operands[0].value->0)
        } else {
            Err(syntax_error(not_one_value(), t.position))
        }
    } else if t.type_.spec_is_unary() {
        let v = operands[0].value->0;
        if t.type_ is UnaryOperator {
            settled(unary_operation(t.content, v), undefined_operator(t.content), t.position)
        } else {
            settled(
                unary_function(t.content, v, results),
                undefined_function(t.content),
                t.position,
            )
        }
    } else {
        let a = operands[0].value->0;
        let b = operands[1].value->0;
        if t.type_.spec_is_operator() {
            settled(binary_operation(t.content, a, b), undefined_operator(t.content), t.position)
        } else {
            settled(None, undefined_function(t.content), t.position)
        }
    }
}

/// What the assignment at `position` of the evaluated right operand `right`
/// to the variable of the node `left` gives: the variable is bound to the
/// value, unless it is readonly, which is an error that changes nothing.
pub open spec fn assigned(left: NodeView, right: NodeView, store: StoreView, position: Position)
    -> Operated {
    let key = lowercase_of(left.token.content);
    if store.readonly.contains(key) {
        Operated {
            operands: seq![left, right],
            store,
            value: Err(
                EvalErrorView {
                    kind: ErrorKind::InvalidOperation,
                    msg: readonly_variable(left.token.content),
                    position,
                },
            ),
        }
    } else {
        Operated {
            operands: seq![left, right],
            store: store.set(key, right.value->0),
            value: Ok(right.value->0),
        }
    }
}

/// The operands `c` of a node with token `t` after evaluation, the variables
/// after it, and the value of the node or its error.
///
/// The operands are evaluated from left to right; then the node gets what
/// its operator or function makes of their values. An assignment evaluates
/// its right operand only and binds the variable on its left to the value.
/// After an error the operands evaluated before it have their values, and
/// the variables are as the assignments before it left them.
pub open spec fn operated(
    t: TokenView,
    c: Seq<NodeView>,
    store: StoreView,
    results: Seq<ValueView>,
) -> Operated
    decreases c, c.len() + 1,
{
    if is_assignment(t) && c.len() == 2 {
        if !(c[0].token.type_ is VariableIdentifier) {
            Operated {
                operands: c,
                store,
                value: Err(syntax_error(not_assignable(), t.position)),
            }
        } else {
            let right = evaluated_node(c[1], store, results);
            match right.error {
                Some(e) => Operated {
                    operands: seq![c[0], right.node],
                    store: right.store,
                    value: Err(e),
                },
                None => assigned(c[0], right.node, right.store, t.position),
            }
        }
    } else {
        let below = evaluated_from(c, 0, store, results);
        Operated {
            operands: below.nodes,
            store: below.store,
            value: match below.error {
                Some(e) => Err(e),
                None => applied(t, below.nodes, results),
            },
        }
    }
}

/// The node `n` after evaluation with the variables `store` and the earlier
/// results `results`, the variables after it, and the error, if any.
///
/// A node that has a value is left as it is, with all below it. A numeral
/// gets the value that it stands for, a variable the value that it is bound
/// to. Any other node gets what its operator or function makes of its
/// operands. A node whose evaluation fails gets no value; what is below it
/// is as the evaluation left it when it stopped.
pub open spec fn evaluated_node(n: NodeView, store: StoreView, results: Seq<ValueView>) -> Step
    decreases n, 0nat,
{
    let t = n.token;
    if n.value is Some {
        Step { node: n, store, error: None }
    } else if t.type_.spec_is_numeral() {
        match numeral_value(t.content) {
            Ok(v) => Step { node: valued(n, v), store, error: None },
            Err(msg) => Step { node: n, store, error: Some(syntax_error(msg, t.position)) },
        }
    } else if t.type_ is VariableIdentifier {
        if store.values.contains_key(lowercase_of(t.content)) {
            Step { node: valued(n, store.values[lowercase_of(t.content)]), store, error: None }
        } else {
            Step {
                node: n,
                store,
                error: Some(syntax_error(undefined_variable(t.content), t.position)),
            }
        }
    } else {
        match n.children {
            None => Step { node: n, store, error: None },
            Some(c) => {
                let below = operated(t, c, store, results);
                match below.value {
                    Ok(v) => Step {
                        node: NodeView { children: Some(below.operands), value: Some(v), ..n },
                        store: below.store,
                        error: None,
                    },
                    Err(e) => Step {
                        node: NodeView { children: Some(below.operands), ..n },
                        store: below.store,
                        error: Some(e),
                    },
                }
            },
        }
    }
}

/// The nodes of `nodes` from index `i` on after evaluation, from left to
/// right, each with the variables that the one before it left. The
/// evaluation stops at the first node that fails; the nodes after it are
/// left as they are.
pub open spec fn evaluated_from(
    nodes: Seq<NodeView>,
    i: int,
    store: StoreView,
    results: Seq<ValueView>,
) -> Steps
    decreases nodes, nodes.len() - i,
{
    if !(0 <= i < nodes.len()) {
        Steps { nodes: Seq::empty(), store, error: None }
    } else {
        let first = evaluated_node(nodes[i], store, results);
        match first.error {
            Some(e) => Steps {
                nodes: seq![first.node] + nodes.skip(i + 1),
                store: first.store,
                error: Some(e),
            },
            None => {
                let rest = evaluated_from(nodes, i + 1, first.store, results);
                Steps { nodes: seq![first.node] + rest.nodes, store: rest.store, error: rest.error }
            },
        }
    }
}

/// The nodes of `nodes` after evaluation, the variables after it, and the
/// error, if any.
pub open spec fn evaluated(nodes: Seq<NodeView>, store: StoreView, results: Seq<ValueView>)
    -> Steps {
    evaluated_from(nodes, 0, store, results)
}

/// A node that has been evaluated without an error has a value.
pub proof fn lemma_evaluated_node_valued(n: NodeView, store: StoreView, results: Seq<ValueView>)
    requires
        node_evaluable(n),
    ensures
        evaluated_node(n, store, results).error is None ==> evaluated_node(
            n,
            store,
            results,
        ).node.value is Some,
{
}

/// A node whose evaluation fails has no value after it.
pub proof fn law_failed_node_has_no_value(
    n: NodeView,
    store: StoreView,
    results: Seq<ValueView>,
)
    ensures
        evaluated_node(n, store, results).error is Some ==> evaluated_node(
            n,
            store,
            results,
        ).node.value is None,
{
}

/// Evaluation keeps the number of nodes; nodes that have been evaluated
/// without an error have values, all of them.
pub proof fn lemma_evaluated_from_valued(
    nodes: Seq<NodeView>,
    i: int,
    store: StoreView,
    results: Seq<ValueView>,
)
    requires
        evaluable(nodes),
        0 <= i <= nodes.len(),
    ensures
        evaluated_from(nodes, i, store, results).nodes.len() == nodes.len() - i,
        evaluated_from(nodes, i, store, results).error is None ==> all_valued(
            evaluated_from(nodes, i, store, results).nodes,
        ),
    decreases nodes, nodes.len() - i,
{
    if i < nodes.len() {
        lemma_evaluated_node_valued(nodes[i], store, results);
        assert(node_evaluable(nodes[i]));
        let first = evaluated_node(nodes[i], store, results);
        if first.error is None {
            lemma_evaluated_from_valued(nodes, i + 1, first.store, results);
        }
    }
}

/// Evaluating nodes that all have a value already changes nothing: neither
/// a node nor the variables.
pub proof fn law_evaluation_idempotent(
    nodes: Seq<NodeView>,
    i: int,
    store: StoreView,
    results: Seq<ValueView>,
)
    requires
        0 <= i <= nodes.len(),
        forall|k: int| 0 <= k < nodes.len() ==> (#[trigger] nodes[k]).value is Some,
    ensures
        evaluated_from(nodes, i, store, results) == (Steps {
            nodes: nodes.skip(i),
            store,
            error: None,
        }),
    decreases nodes.len() - i,
{
    if i < nodes.len() {
        law_evaluation_idempotent(nodes, i + 1, store, results);
        assert(nodes[i].value is Some);
        assert(evaluated_node(nodes[i], store, results) == (Step {
            node: nodes[i],
            store,
            error: None,
        }));
        assert(seq![nodes[i]] + nodes.skip(i + 1) =~= nodes.skip(i));
    } else {
        assert(nodes.skip(i) =~= Seq::<NodeView>::empty());
    }
}

/// Whether an assignment operator stands at `n` or anywhere below it.
pub open spec fn node_assigns(n: NodeView) -> bool
    decreases n,
{
    n.children matches Some(c) && (is_assignment(n.token) || exists|i: int|
        0 <= i < c.len() && node_assigns(#[trigger] c[i]))
}

/// Whether an assignment operator stands anywhere in `nodes`.
pub open spec fn assigns(nodes: Seq<NodeView>) -> bool {
    exists|i: int| 0 <= i < nodes.len() && node_assigns(#[trigger] nodes[i])
}

/// Evaluating a node without an assignment operator at it or below it
/// leaves the variables as they are, whether it fails or not.
pub proof fn lemma_variables_kept_by_node(n: NodeView, store: StoreView, results: Seq<ValueView>)
    requires
        !node_assigns(n),
    ensures
        evaluated_node(n, store, results).store == store,
    decreases n, 0nat,
{
    if n.value is None && !n.token.type_.spec_is_numeral() && !(n.token.type_
        is VariableIdentifier) {
        if let Some(c) = n.children {
            assert(!is_assignment(n.token));
            assert(!assigns(c)) by {
                if assigns(c) {
                    let i = choose|i: int| 0 <= i < c.len() && node_assigns(#[trigger] c[i]);
                    assert(node_assigns(c[i]));
                }
            }
            lemma_variables_kept(c, 0, store, results);
        }
    }
}

/// Evaluating nodes without an assignment operator among them or below them
/// leaves the variables as they are, whether it fails or not.
pub proof fn lemma_variables_kept(
    nodes: Seq<NodeView>,
    i: int,
    store: StoreView,
    results: Seq<ValueView>,
)
    requires
        !assigns(nodes),
        0 <= i,
    ensures
        evaluated_from(nodes, i, store, results).store == store,
    decreases nodes, nodes.len() - i,
{
    if i < nodes.len() {
        assert(!node_assigns(nodes[i]));
        lemma_variables_kept_by_node(nodes[i], store, results);
        lemma_variables_kept(nodes, i + 1, store, results);
    }
}

/// Whether an evaluation ended as `error` says: without an error, or with
/// the error `error`.
pub open spec fn ended(r: Result<(), EvalError>, error: Option<EvalErrorView>) -> bool {
    match r {
        Ok(_) => error is None,
        Err(e) => error == Some(e@),
    }
}

/// Every node of `nodes` has a value.
pub open spec fn all_valued(nodes: Seq<NodeView>) -> bool {
    forall|k: int| 0 <= k < nodes.len() ==> (#[trigger] nodes[k]).value is Some
}

/// The views of the nodes of `nodes`, in order.
pub open spec fn views_of(nodes: Seq<AstNode>) -> Seq<NodeView> {
    Seq::new(nodes.len(), |i: int| nodes[i]@)
}

/// Walks syntax trees and gives their nodes values, with the variables and
/// the earlier results of its environment.
pub struct Evaluator {
    pub environment: Environment,
}

fn syntax_failure(e: SyntaxError) -> (r: EvalError)
    ensures
        r@ == syntax_error(e@.msg, e@.position),
{
    EvalError { kind: ErrorKind::Syntax, msg: e.msg, position: e.position }
}

fn value_failure(e: ValueError, position: Position) -> (r: EvalError)
    ensures
        r@ == value_error(e@, position),
{
    match e {
        ValueError::Conversion(c) => EvalError { kind: ErrorKind::Conversion, msg: c.msg, position },
        ValueError::InvalidOperation(i) => EvalError {
            kind: ErrorKind::InvalidOperation,
            msg: i.msg,
            position,
        },
    }
}

/// What came of an operation on values, as plain data.
pub open spec fn outcome_view(r: Option<Result<Value, ValueError>>) -> Option<Computed> {
    match r {
        None => None,
        Some(Ok(v)) => Some(Ok(v@)),
        Some(Err(e)) => Some(Err(e@)),
    }
}

fn lift(r: Result<Value, ValueError>) -> (o: Option<Result<Value, ValueError>>)
    ensures
        o == Some(r),
{
    Some(r)
}

fn truth_value(b: bool) -> (o: Option<Result<Value, ValueError>>)
    ensures
        outcome_view(o) == Some(Ok::<ValueView, ValueErrorView>(truth(b))),
{
    Some(Ok(Value::Integer(Integer::from_bool(b))))
}

impl Evaluator {
    /// An evaluator with the default environment: the constants `pi`, `tau`
    /// and `e`, and no earlier results.
    pub fn new() -> (e: Evaluator)
        ensures
            e.environment.results@.len() == 0,
            e.environment.variables@ == Environment::seeded(),
    {
        Evaluator { environment: Environment::default() }
    }

    /// The result that `mem` recalls for the slot `v`.
    fn recall(&self, v: &Value) -> (r: Result<Value, ValueError>)
        ensures
            match r {
                Ok(x) => remembered(v@, self.environment.history()) == Ok::<
                    ValueView,
                    ValueErrorView,
                >(x@),
                Err(e) => remembered(v@, self.environment.history()) == Err::<
                    ValueView,
                    ValueErrorView,
                >(e@),
            },
    {
        let slot = match v.try_into_integer() {
            Ok(i) => i,
            Err(_) => {
                return Err(ValueError::invalid("The memory slot must be a non-negative integer"));
            },
        };
        if slot.is_negative() {
            return Err(ValueError::invalid("The memory slot must be a non-negative integer"));
        }
        proof {
            assert(self.environment.history().len() == self.environment.results@.len());
            assert(to_integer(v@) == Ok::<int, Seq<char>>(slot@));
        }
        match slot.to_u128() {
            Some(n) => if n < self.environment.results.len() as u128 {
                Ok(self.environment.recall(n as usize))
            } else {
                Ok(Value::Integer(Integer::zero()))
            },
            None => {
                let count = self.environment.results.len();
                assert(slot@ > count);
                Ok(Value::Integer(Integer::zero()))
            },
        }
    }

    /// What the unary operator spelled `op` makes of `v`.
    pub fn apply_unary_operator(op: &Vec<char>, v: &Value) -> (r: Option<Result<Value, ValueError>>)
        ensures
            outcome_view(r) == unary_operation(op@, v@),
    {
        if chars_are(op, "+") {
            lift(Ok(v.unary_pos()))
        } else if chars_are(op, "-") {
            lift(v.unary_neg())
        } else if chars_are(op, "!") {
            lift(v.factorial())
        } else if chars_are(op, "¬") {
            lift(Ok(v.logical_neg()))
        } else if chars_are(op, "~") {
            lift(v.bitwise_neg())
        } else {
            None
        }
    }

    /// What the unary function named `name` makes of `v`.
    pub fn apply_unary_function(&self, name: &Vec<char>, v: &Value) -> (r: Option<
        Result<Value, ValueError>,
    >)
        ensures
            outcome_view(r) == unary_function(name@, v@, self.environment.history()),
    {
        if chars_are(name, "abs") {
            lift(v.abs())
        } else if chars_are(name, "not") {
            lift(Ok(v.logical_neg()))
        } else if chars_are(name, "sin") {
            lift(v.sin())
        } else if chars_are(name, "mem") {
            lift(self.recall(v))
        } else {
            None
        }
    }

    /// What the binary operator spelled `op` makes of `a` and `b`.
    pub fn apply_binary_operator(op: &Vec<char>, a: &Value, b: &Value) -> (r: Option<
        Result<Value, ValueError>,
    >)
        ensures
            outcome_view(r) == binary_operation(op@, a@, b@),
    {
        if chars_are(op, "+") {
            lift(a.arithmetic(Arithmetic::Add, b))
        } else if chars_are(op, "-") {
            lift(a.arithmetic(Arithmetic::Sub, b))
        } else if chars_are(op, "*") {
            lift(a.arithmetic(Arithmetic::Mul, b))
        } else if chars_are(op, "/") {
            lift(a.arithmetic(Arithmetic::Div, b))
        } else if chars_are(op, "%") {
            lift(a.arithmetic(Arithmetic::Rem, b))
        } else if chars_are(op, "^") {
            lift(a.arithmetic(Arithmetic::Pow, b))
        } else if chars_are(op, "<") {
            truth_value(a.ordering(b) < 0)
        } else if chars_are(op, ">") {
            truth_value(a.ordering(b) > 0)
        } else if chars_are(op, "<=") {
            truth_value(a.ordering(b) <= 0)
        } else if chars_are(op, ">=") {
            truth_value(a.ordering(b) >= 0)
        } else if chars_are(op, "==") {
            truth_value(a.ordering(b) == 0)
        } else if chars_are(op, "!=") {
            truth_value(a.ordering(b) != 0)
        } else if chars_are(op, "<=>") {
            let o = a.ordering(b);
            let i = if o < 0 {
                Integer::zero().checked_sub(&Integer::one()).unwrap()
            } else if o > 0 {
                Integer::one()
            } else {
                Integer::zero()
            };
            lift(Ok(Value::Integer(i)))
        } else if chars_are(op, "&") {
            lift(a.bitwise(Bitwise::And, b))
        } else if chars_are(op, "|") {
            lift(a.bitwise(Bitwise::Or, b))
        } else if chars_are(op, "^|") {
            lift(a.bitwise(Bitwise::Xor, b))
        } else if chars_are(op, "<<") {
            lift(a.shift(true, b))
        } else if chars_are(op, ">>") {
            lift(a.shift(false, b))
        } else if chars_are(op, "&&") {
            truth_value(!a.is_zero() && !b.is_zero())
        } else if chars_are(op, "||") {
            truth_value(!a.is_zero() || !b.is_zero())
        } else {
            None
        }
    }

    /// The outcome of an operation as the outcome of a node at `position`.
    fn settle(
        outcome: Option<Result<Value, ValueError>>,
        prefix: &str,
        name: &Vec<char>,
        position: Position,
    ) -> (r: Result<Value, EvalError>)
        ensures
            match r {
                Ok(v) => settled(
                    outcome_view(outcome),
                    framed(prefix@, name@, "\" is undefined"@),
                    position,
                ) == Ok::<ValueView, EvalErrorView>(v@),
                Err(e) => settled(
                    outcome_view(outcome),
                    framed(prefix@, name@, "\" is undefined"@),
                    position,
                ) == Err::<ValueView, EvalErrorView>(e@),
            },
    {
        match outcome {
            None => Err(
                EvalError {
                    kind: ErrorKind::Syntax,
                    msg: framed_message(prefix, name, "\" is undefined"),
                    position,
                },
            ),
            Some(Err(e)) => Err(value_failure(e, position)),
            Some(Ok(v)) => Ok(v),
        }
    }
}

impl Evaluator {
    /// Evaluates the nodes of `ast`, from left to right, each with all that
    /// is below it, and gives every node that it evaluates its value. A node
    /// that has a value is left as it is. On an error the nodes evaluated
    /// before it keep their values, the node that failed and those above it
    /// get none, the nodes after it are left as they are, and the variables
    /// keep what was assigned before the error.
    pub fn evaluate(&mut self, ast: &mut Ast) -> (r: Result<(), EvalError>)
        requires
            evaluable(old(ast)@),
        ensures
            final(self).environment.history() == old(self).environment.history(),
            final(ast).level == old(ast).level,
            levels_ok(*old(ast)) ==> levels_ok(*final(ast)),
            final(ast)@ == evaluated(
                old(ast)@,
                old(self).environment.variables@,
                old(self).environment.history(),
            ).nodes,
            final(self).environment.variables@ == evaluated(
                old(ast)@,
                old(self).environment.variables@,
                old(self).environment.history(),
            ).store,
            ended(
                r,
                evaluated(
                    old(ast)@,
                    old(self).environment.variables@,
                    old(self).environment.history(),
                ).error,
            ),
            r is Ok ==> all_valued(final(ast)@),
    {
        proof {
            assert(old(ast)@ =~= views_of(ast.nodes@));
            lemma_evaluated_from_valued(
                old(ast)@,
                0,
                self.environment.variables@,
                self.environment.history(),
            );
        }
        let r = self.evaluate_nodes(&mut ast.nodes);
        proof {
            assert(ast@ =~= views_of(ast.nodes@));
            if levels_ok(*old(ast)) {
                assert(nodes_levels_ok(old(ast).nodes@, ast.level));
                assert(nodes_levels_ok(ast.nodes@, ast.level));
            }
        }
        r
    }

    /// Evaluates `nodes` from left to right.
    fn evaluate_nodes(&mut self, nodes: &mut Vec<AstNode>) -> (r: Result<(), EvalError>)
        requires
            evaluable(views_of(old(nodes)@)),
        ensures
            final(self).environment.history() == old(self).environment.history(),
            final(nodes).len() == old(nodes).len(),
            forall|l: usize| #[trigger]
                nodes_levels_ok(old(nodes)@, l) ==> nodes_levels_ok(final(nodes)@, l),
            views_of(final(nodes)@) == evaluated_from(
                views_of(old(nodes)@),
                0,
                old(self).environment.variables@,
                old(self).environment.history(),
            ).nodes,
            final(self).environment.variables@ == evaluated_from(
                views_of(old(nodes)@),
                0,
                old(self).environment.variables@,
                old(self).environment.history(),
            ).store,
            ended(
                r,
                evaluated_from(
                    views_of(old(nodes)@),
                    0,
                    old(self).environment.variables@,
                    old(self).environment.history(),
                ).error,
            ),
        decreases *old(nodes), 0nat,
    {
        let ghost before = views_of(old(nodes)@);
        let ghost results = self.environment.history();
        let ghost goal = evaluated_from(before, 0, self.environment.variables@, results);
        let n = nodes.len();
        let mut i: usize = 0;
        proof {
            assert(views_of(nodes@).take(0) =~= Seq::<NodeView>::empty());
            assert(Seq::<NodeView>::empty() + goal.nodes =~= goal.nodes);
        }
        while i < n
            invariant
                i <= n,
                n == nodes.len(),
                n == old(nodes).len(),
                before == views_of(old(nodes)@),
                evaluable(before),
                results == self.environment.history(),
                results == old(self).environment.history(),
                forall|j: int| i <= j < n ==> nodes[j] == old(nodes)[j],
                forall|l: usize| #[trigger]
                    nodes_levels_ok(old(nodes)@, l) ==> nodes_levels_ok(nodes@, l),
                goal == evaluated_from(before, 0, old(self).environment.variables@, results),
                goal.nodes == views_of(nodes@).take(i as int) + evaluated_from(
                    before,
                    i as int,
                    self.environment.variables@,
                    results,
                ).nodes,
                goal.store == evaluated_from(
                    before,
                    i as int,
                    self.environment.variables@,
                    results,
                ).store,
                goal.error == evaluated_from(
                    before,
                    i as int,
                    self.environment.variables@,
                    results,
                ).error,
            decreases n - i,
        {
            let ghost done = views_of(nodes@).take(i as int);
            let ghost here = evaluated_from(before, i as int, self.environment.variables@, results);
            let ghost first = evaluated_node(before[i as int], self.environment.variables@, results);
            proof {
                assert(before[i as int] == nodes[i as int]@);
                assert(node_evaluable(before[i as int]));
                assert(decreases_to!(*old(nodes) => old(nodes)[i as int]));
            }
            let ghost earlier = nodes@;
            let node = &mut nodes[i];
            let step = self.evaluate_node(node);
            proof {
                assert forall|l: usize| #[trigger]
                    nodes_levels_ok(old(nodes)@, l) implies nodes_levels_ok(nodes@, l) by {
                    assert forall|j: int| 0 <= j < nodes.len() implies node_levels_ok(
                        #[trigger] nodes[j],
                        l,
                    ) by {
                        assert(nodes_levels_ok(earlier, l));
                        assert(node_levels_ok(earlier[j], l));
                        if j != i {
                            assert(nodes[j] == earlier[j]);
                        }
                    }
                }
                assert(nodes[i as int]@ == first.node);
                assert(views_of(nodes@).take(i + 1) =~= done + seq![first.node]);
            }
            match step {
                Err(e) => {
                    proof {
                        assert(views_of(nodes@) =~= done + (seq![first.node] + before.skip(
                            i + 1,
                        ))) by {
                            assert forall|j: int| i < j < n implies views_of(nodes@)[j]
                                == before[j] by {
                                assert(nodes[j] == old(nodes)[j]);
                            }
                        }
                    }
                    return Err(e);
                },
                Ok(_) => {},
            }
            i += 1;
            proof {
                let rest = evaluated_from(before, i as int, self.environment.variables@, results);
                assert(here.nodes == seq![first.node] + rest.nodes);
                assert(views_of(nodes@).take(i as int) + rest.nodes =~= done + (seq![first.node]
                    + rest.nodes));
            }
        }
        proof {
            assert(views_of(nodes@).take(n as int) + Seq::<NodeView>::empty() =~= views_of(
                nodes@,
            ));
        }
        Ok(())
    }

    /// Evaluates `node` with all that is below it, and gives it its value.
    /// A node that has a value is left as it is. A node whose evaluation
    /// fails gets no value.
    pub fn evaluate_node(&mut self, node: &mut AstNode) -> (r: Result<(), EvalError>)
        requires
            node_evaluable(old(node)@),
        ensures
            final(self).environment.history() == old(self).environment.history(),
            forall|l: usize| #[trigger]
                node_levels_ok(*old(node), l) ==> node_levels_ok(*final(node), l),
            final(node)@ == evaluated_node(
                old(node)@,
                old(self).environment.variables@,
                old(self).environment.history(),
            ).node,
            final(self).environment.variables@ == evaluated_node(
                old(node)@,
                old(self).environment.variables@,
                old(self).environment.history(),
            ).store,
            ended(
                r,
                evaluated_node(
                    old(node)@,
                    old(self).environment.variables@,
                    old(self).environment.history(),
                ).error,
            ),
        decreases *old(node), 1nat,
    {
        if node.value.is_some() {
            return Ok(());
        }
        if node.token.type_.is_numeral() {
            return match Value::from_chars(&node.token.content, node.token.position) {
                Ok(v) => {
                    node.value = Some(v);
                    Ok(())
                },
                Err(e) => Err(syntax_failure(e)),
            };
        }
        if node.token.type_.is_variable_identifier() {
            let name = string_of(&node.token.content);
            return match self.environment.variables.get(name.as_str()) {
                Some(v) => {
                    node.value = Some(v);
                    Ok(())
                },
                None => Err(
                    EvalError {
                        kind: ErrorKind::Syntax,
                        msg: framed_message(
                            "The variable \"",
                            &node.token.content,
                            "\" is undefined",
                        ),
                        position: node.token.position,
                    },
                ),
            };
        }
        let mut taken: Option<Ast> = None;
        std::mem::swap(&mut node.subtree, &mut taken);
        let mut sub = match taken {
            Some(sub) => sub,
            None => {
                return Ok(());
            },
        };
        proof {
            assert(old(node)@.children == Some(sub@));
            assert(sub@ =~= views_of(sub.nodes@));
            assert(decreases_to!(*old(node) => sub.nodes));
        }
        let ghost below = sub;
        let r = self.operate(&node.token, &mut sub.nodes);
        proof {
            assert(sub@ =~= views_of(sub.nodes@));
            if levels_ok(below) {
                assert(nodes_levels_ok(below.nodes@, below.level));
                assert(nodes_levels_ok(sub.nodes@, sub.level));
                assert(levels_ok(sub));
            }
        }
        node.subtree = Some(sub);
        match r {
            Ok(v) => {
                node.value = Some(v);
                Ok(())
            },
            Err(e) => Err(e),
        }
    }

    /// Evaluates the operands `operands` of a node with token `token` and
    /// gives what the operator or function of the token makes of them.
    fn operate(&mut self, token: &Token, operands: &mut Vec<AstNode>) -> (r: Result<
        Value,
        EvalError,
    >)
        requires
            token.type_.spec_is_unary() ==> old(operands).len() == 1,
            !token.type_.spec_is_unary() && !(token.type_ is Expression) ==> old(operands).len()
                == 2,
            evaluable(views_of(old(operands)@)),
        ensures
            final(self).environment.history() == old(self).environment.history(),
            forall|l: usize| #[trigger]
                nodes_levels_ok(old(operands)@, l) ==> nodes_levels_ok(final(operands)@, l),
            views_of(final(operands)@) == operated(
                token@,
                views_of(old(operands)@),
                old(self).environment.variables@,
                old(self).environment.history(),
            ).operands,
            final(self).environment.variables@ == operated(
                token@,
                views_of(old(operands)@),
                old(self).environment.variables@,
                old(self).environment.history(),
            ).store,
            match r {
                Ok(v) => operated(
                    token@,
                    views_of(old(operands)@),
                    old(self).environment.variables@,
                    old(self).environment.history(),
                ).value == Ok::<ValueView, EvalErrorView>(v@),
                Err(e) => operated(
                    token@,
                    views_of(old(operands)@),
                    old(self).environment.variables@,
                    old(self).environment.history(),
                ).value == Err::<ValueView, EvalErrorView>(e@),
            },
        decreases *old(operands), 2nat,
    {
        let ghost before = views_of(old(operands)@);
        let ghost results = self.environment.history();
        let position = token.position;
        if token.type_ == TokenType::BinaryOperator && chars_are(&token.content, ":=")
            && operands.len() == 2 {
            proof {
                assert(before[0] == operands[0]@);
                assert(before[1] == operands[1]@);
                assert(node_evaluable(before[1]));
            }
            if operands[0].token.type_ != TokenType::VariableIdentifier {
                assert(views_of(operands@) =~= before);
                return Err(
                    EvalError {
                        kind: ErrorKind::Syntax,
                        msg: String::from_str("The left-hand side of \":=\" must be a variable"),
                        position,
                    },
                );
            }
            proof {
                lemma_evaluated_node_valued(before[1], self.environment.variables@, results);
                assert(decreases_to!(*old(operands) => old(operands)[1]));
            }
            let right = &mut operands[1];
            let step = self.evaluate_node(right);
            proof {
                assert forall|l: usize| #[trigger]
                    nodes_levels_ok(old(operands)@, l) implies nodes_levels_ok(operands@, l) by {
                    assert forall|j: int| 0 <= j < operands.len() implies node_levels_ok(
                        #[trigger] operands[j],
                        l,
                    ) by {
                        assert(node_levels_ok(old(operands)[j], l));
                        if j == 0 {
                            assert(operands[j] == old(operands)[j]);
                        }
                    }
                }
            }
            proof {
                assert(views_of(operands@) =~= seq![before[0], operands[1]@]);
            }
            match step {
                Err(e) => {
                    return Err(e);
                },
                Ok(_) => {},
            }
            let v = operands[1].value.unwrap();
            let name = string_of(&operands[0].token.content);
            if !self.environment.variables.set(name.as_str(), v) {
                return Err(
                    EvalError {
                        kind: ErrorKind::InvalidOperation,
                        msg: framed_message(
                            "The variable \"",
                            &operands[0].token.content,
                            "\" is readonly",
                        ),
                        position,
                    },
                );
            }
            return Ok(v);
        }
        proof {
            lemma_evaluated_from_valued(before, 0, self.environment.variables@, results);
        }
        match self.evaluate_nodes(operands) {
            Err(e) => {
                return Err(e);
            },
            Ok(_) => {},
        }
        let ghost after = views_of(operands@);
        if token.type_ == TokenType::Expression {
            if operands.len() == 1 {
                assert(after[0] == operands[0]@);
                return Ok(operands[0].value.unwrap());
            }
            return Err(
                EvalError {
                    kind: ErrorKind::Syntax,
                    msg: String::from_str(
                        "The expression in parentheses does not reduce to a single value",
                    ),
                    position,
                },
            );
        }
        assert(after[0] == operands[0]@);
        let a = operands[0].value.unwrap();
        if token.type_.is_unary() {
            if token.type_ == TokenType::UnaryOperator {
                Evaluator::settle(
                    Evaluator::apply_unary_operator(&token.content, &a),
                    "The operator \"",
                    &token.content,
                    position,
                )
            } else {
                Evaluator::settle(
                    self.apply_unary_function(&token.content, &a),
                    "The function \"",
                    &token.content,
                    position,
                )
            }
        } else {
            assert(after[1] == operands[1]@);
            let b = operands[1].value.unwrap();
            if token.type_.is_operator() {
                Evaluator::settle(
                    Evaluator::apply_binary_operator(&token.content, &a, &b),
                    "The operator \"",
                    &token.content,
                    position,
                )
            } else {
                Evaluator::settle(None, "The function \"", &token.content, position)
            }
        }
    }
}

/// The message for a variable that a flat pass finds unbound.
pub open spec fn undefined_identifier(name: Seq<char>) -> Seq<char> {
    framed("The variable identifier \""@, name, "\" is undefined"@)
}

/// What a pass over a flat sequence leaves: the nodes, and the error that
/// stopped it, if any.
pub ghost struct Resolved {
    pub nodes: Seq<NodeView>,
    pub error: Option<SyntaxErrorView>,
}

/// `nodes` with every numeral from index `i` on given the value that it
/// stands for, whatever it had, up to the first numeral that stands for
/// none, with the error of that one.
pub open spec fn numerals_resolved(nodes: Seq<NodeView>, i: int) -> Resolved
    decreases nodes.len() - i,
{
    if !(0 <= i < nodes.len()) {
        Resolved { nodes, error: None }
    } else if nodes[i].token.type_.spec_is_numeral() {
        match numeral_value(nodes[i].token.content) {
            Ok(v) => numerals_resolved(nodes.update(i, valued(nodes[i], v)), i + 1),
            Err(msg) => Resolved {
                nodes,
                error: Some(SyntaxErrorView { msg, position: nodes[i].token.position }),
            },
        }
    } else {
        numerals_resolved(nodes, i + 1)
    }
}

/// Whether the node after index `i` of `nodes` is an assignment operator.
pub open spec fn is_assigned_to(nodes: Seq<NodeView>, i: int) -> bool {
    i + 1 < nodes.len() && is_assignment(nodes[i + 1].token)
}

/// `nodes` with every variable from index `i` on given the value that it is
/// bound to, whatever it had, but for a variable that an assignment operator
/// follows, up to the first variable that is not bound, with the error of
/// that one.
pub open spec fn variables_resolved(nodes: Seq<NodeView>, i: int, store: StoreView) -> Resolved
    decreases nodes.len() - i,
{
    if !(0 <= i < nodes.len()) {
        Resolved { nodes, error: None }
    } else if nodes[i].token.type_ is VariableIdentifier && !is_assigned_to(nodes, i) {
        let key = lowercase_of(nodes[i].token.content);
        if store.values.contains_key(key) {
            variables_resolved(nodes.update(i, valued(nodes[i], store.values[key])), i + 1, store)
        } else {
            Resolved {
                nodes,
                error: Some(
                    SyntaxErrorView {
                        msg: undefined_identifier(nodes[i].token.content),
                        position: nodes[i].token.position,
                    },
                ),
            }
        }
    } else {
        variables_resolved(nodes, i + 1, store)
    }
}

/// Whether the result of a pass names the error that stopped it.
pub open spec fn stopped(r: Result<(), SyntaxError>, error: Option<SyntaxErrorView>) -> bool {
    match r {
        Ok(_) => error is None,
        Err(e) => error == Some(e@),
    }
}

impl Evaluator {
    /// Gives every numeral among the nodes of `ast`, not those below them,
    /// the value that it stands for. It stops at the first numeral that
    /// stands for none: those before it have their values then.
    pub fn evaluate_numerals(ast: &mut Ast) -> (r: Result<(), SyntaxError>)
        ensures
            final(ast).level == old(ast).level,
            levels_ok(*old(ast)) ==> levels_ok(*final(ast)),
            final(ast)@ == numerals_resolved(old(ast)@, 0).nodes,
            stopped(r, numerals_resolved(old(ast)@, 0).error),
    {
        let n = ast.nodes.len();
        let mut i: usize = 0;
        while i < n
            invariant
                i <= n,
                n == ast.nodes.len(),
                n == ast@.len(),
                ast.level == old(ast).level,
                levels_ok(*old(ast)) ==> levels_ok(*ast),
                numerals_resolved(ast@, i as int) == numerals_resolved(old(ast)@, 0),
            decreases n - i,
        {
            let ghost before = *ast;
            assert(before@[i as int] == ast.nodes[i as int]@);
            if ast.nodes[i].token.type_.is_numeral() {
                match Value::from_chars(&ast.nodes[i].token.content, ast.nodes[i].token.position) {
                    Ok(v) => {
                        let node = &mut ast.nodes[i];
                        node.value = Some(v);
                        proof {
                            assert(ast@ =~= before@.update(i as int, valued(before@[i as int], v@)));
                            if levels_ok(before) {
                                assert(nodes_levels_ok(before.nodes@, before.level));
                                assert forall|j: int| 0 <= j < ast.nodes.len() implies ((
                                #[trigger] ast.nodes[j]).subtree matches Some(s) ==> s.level
                                    == ast.level + 1 && levels_ok(s)) by {
                                    assert(ast.nodes[j].subtree == before.nodes[j].subtree);
                                }
                            }
                        }
                    },
                    Err(e) => {
                        return Err(e);
                    },
                }
            }
            i += 1;
        }
        Ok(())
    }

    /// Gives every variable among the nodes of `ast`, not those below them,
    /// the value that it is bound to, but for a variable that an assignment
    /// operator follows. It stops at the first variable that is not bound:
    /// those before it have their values then.
    pub fn evaluate_variables(&self, ast: &mut Ast) -> (r: Result<(), SyntaxError>)
        ensures
            final(ast).level == old(ast).level,
            levels_ok(*old(ast)) ==> levels_ok(*final(ast)),
            final(ast)@ == variables_resolved(old(ast)@, 0, self.environment.variables@).nodes,
            stopped(r, variables_resolved(old(ast)@, 0, self.environment.variables@).error),
    {
        let n = ast.nodes.len();
        let mut i: usize = 0;
        while i < n
            invariant
                i <= n,
                n == ast.nodes.len(),
                n == ast@.len(),
                ast.level == old(ast).level,
                levels_ok(*old(ast)) ==> levels_ok(*ast),
                variables_resolved(ast@, i as int, self.environment.variables@)
                    == variables_resolved(old(ast)@, 0, self.environment.variables@),
            decreases n - i,
        {
            let ghost before = *ast;
            assert(before@[i as int] == ast.nodes[i as int]@);
            let assigned = i + 1 < n && ast.nodes[i + 1].token.type_ == TokenType::BinaryOperator
                && chars_are(&ast.nodes[i + 1].token.content, ":=");
            proof {
                if i + 1 < n {
                    assert(before@[i + 1] == ast.nodes[i + 1]@);
                }
                assert(assigned == is_assigned_to(before@, i as int));
            }
            if ast.nodes[i].token.type_ == TokenType::VariableIdentifier && !assigned {
                let name = string_of(&ast.nodes[i].token.content);
                match self.environment.variables.get(name.as_str()) {
                    Some(v) => {
                        let node = &mut ast.nodes[i];
                        node.value = Some(v);
                        proof {
                            assert(ast@ =~= before@.update(i as int, valued(before@[i as int], v@)));
                            if levels_ok(before) {
                                assert forall|j: int| 0 <= j < ast.nodes.len() implies ((
                                #[trigger] ast.nodes[j]).subtree matches Some(s) ==> s.level
                                    == ast.level + 1 && levels_ok(s)) by {
                                    assert(ast.nodes[j].subtree == before.nodes[j].subtree);
                                }
                            }
                        }
                    },
                    None => {
                        return Err(
                            SyntaxError::quoting(
                                "The variable identifier \"",
                                &ast.nodes[i].token.content,
                                "\" is undefined",
                                ast.nodes[i].token.position,
                            ),
                        );
                    },
                }
            }
            i += 1;
        }
        Ok(())
    }
}

/// Whether `node` can be evaluated.
pub fn node_is_evaluable(node: &AstNode) -> (b: bool)
    ensures
        b == node_evaluable(node@),
    decreases *node,
{
    if node.value.is_some() || node.token.type_.is_terminal() {
        return true;
    }
    match &node.subtree {
        None => false,
        Some(sub) => {
            proof {
                assert(sub@ =~= views_of(sub.nodes@));
                assert(node@.children == Some(sub@));
            }
            let n = sub.nodes.len();
            if node.token.type_.is_unary() && n != 1 {
                return false;
            }
            if !node.token.type_.is_unary() && node.token.type_ != TokenType::Expression && n
                != 2 {
                return false;
            }
            let mut i: usize = 0;
            while i < n
                invariant
                    i <= n,
                    n == sub.nodes.len(),
                    sub@ == views_of(sub.nodes@),
                    node.subtree == Some(*sub),
                    node@.children == Some(sub@),
                    node@.value is None,
                    !node@.token.type_.spec_is_terminal(),
                    forall|k: int| 0 <= k < i ==> node_evaluable(#[trigger] sub@[k]),
                decreases n - i,
            {
                proof {
                    assert(sub@[i as int] == sub.nodes[i as int]@);
                    assert(decreases_to!(sub.nodes => sub.nodes[i as int]));
                    assert(decreases_to!(*node => sub.nodes[i as int]));
                }
                if !node_is_evaluable(&sub.nodes[i]) {
                    assert(!node_evaluable(sub@[i as int]));
                    return false;
                }
                i += 1;
            }
            true
        },
    }
}

/// Whether every node of `ast` can be evaluated.
pub fn is_evaluable(ast: &Ast) -> (b: bool)
    ensures
        b == evaluable(ast@),
{
    let n = ast.nodes.len();
    let mut i: usize = 0;
    while i < n
        invariant
            i <= n,
            n == ast.nodes.len(),
            n == ast@.len(),
            forall|k: int| 0 <= k < i ==> node_evaluable(#[trigger] ast@[k]),
        decreases n - i,
    {
        assert(ast@[i as int] == ast.nodes[i as int]@);
        if !node_is_evaluable(&ast.nodes[i]) {
            return false;
        }
        i += 1;
    }
    true
}

impl Default for Evaluator {
    /// An evaluator with the default environment.
    fn default() -> (e: Evaluator)
        ensures
            e.environment.results@.len() == 0,
            e.environment.variables@ == Environment::seeded(),
    {
        Evaluator { environment: Environment::default() }
    }
}

} // verus!
