//! The decision engine: evaluates a decision tree against a set of variables.
//!
//! Execution starts at the tree's `start` node and follows condition branches
//! until a node ends the run: a return node yields its value, a fallback node
//! asks for an LLM, and a missing node or an exhausted step budget is an error.
use vstd::prelude::*;
use crate::value::{Value, ValueModel, FieldMap};
use crate::number::{num_compare, compare_numbers};
use crate::strmap::StrMap;
use crate::text::{seq_contains, str_contains, concat};

verus! {

/// Comparison performed by a condition node.
#[derive(Debug, Clone, Copy, PartialEq, Eq, Structural)]
pub enum Operator {
    Eq,
    Neq,
    Gt,
    Gte,
    Lt,
    Lte,
    Contains,
    Matches,
    IsNull,
    IsNotNull,
}

/// One node of a decision tree.
#[derive(Debug)]
pub enum DecisionNode {
    /// Compare `variable` with `value`, then continue at `true_next` or `false_next`.
    Condition {
        variable: String,
        operator: Operator,
        value: Option<Value>,
        true_next: String,
        false_next: String,
    },
    /// End the run with `value`.
    Return { value: Value },
    /// Store `value` (when given) under `target`, then continue at `next`,
    /// or end the run with all variables when there is no `next`.
    Action { action: String, target: String, value: Option<Value>, next: Option<String> },
    /// End the run by asking for an LLM decision with `prompt`.
    LlmFallback { prompt: String, schema: Option<Value> },
    /// Apply a built-in `function` to `input_variable`, store the result under
    /// `output_variable`, then continue at `next`.
    Intrinsic { function: String, input_variable: String, output_variable: String, next: String },
}

/// A decision tree: named nodes and the node where execution starts.
#[derive(Debug)]
pub struct DecisionTree {
    pub start: String,
    pub nodes: StrMap<DecisionNode>,
}

/// Outcome of running a decision tree.
#[derive(Debug)]
pub enum ExecutionResult {
    Value(Value),
    Error(String),
    LlmRequest { prompt: String, context: FieldMap },
}

/// Variables visible to the tree, and the nodes visited so far.
#[derive(Debug)]
pub struct DecisionContext {
    pub variables: FieldMap,
    pub execution_path: Vec<String>,
}

/// Runs one decision tree.
#[derive(Debug)]
pub struct DecisionEngine {
    pub tree: DecisionTree,
}

/// Meaning of a decision node: its names as text and its values by meaning.
pub enum NodeModel {
    Condition {
        variable: Seq<char>,
        operator: Operator,
        value: Option<ValueModel>,
        true_next: Seq<char>,
        false_next: Seq<char>,
    },
    Return { value: ValueModel },
    Action { action: Seq<char>, target: Seq<char>, value: Option<ValueModel>, next: Option<Seq<char>> },
    LlmFallback { prompt: Seq<char>, schema: Option<ValueModel> },
    Intrinsic { function: Seq<char>, input_variable: Seq<char>, output_variable: Seq<char>, next: Seq<char> },
}

/// Meaning of an optional value.
pub open spec fn opt_model(v: Option<Value>) -> Option<ValueModel> {
    match v {
        Some(x) => Some(x.model()),
        None => None,
    }
}

/// View of an optional string.
pub open spec fn opt_view(s: Option<String>) -> Option<Seq<char>> {
    match s {
        Some(x) => Some(x@),
        None => None,
    }
}

impl DecisionNode {
    pub open spec fn model(&self) -> NodeModel {
        match self {
            DecisionNode::Condition { variable, operator, value, true_next, false_next } => NodeModel::Condition {
                variable: variable@,
                operator: *operator,
                value: opt_model(*value),
                true_next: true_next@,
                false_next: false_next@,
            },
            DecisionNode::Return { value } => NodeModel::Return { value: value.model() },
            DecisionNode::Action { action, target, value, next } => NodeModel::Action {
                action: action@,
                target: target@,
                value: opt_model(*value),
                next: opt_view(*next),
            },
            DecisionNode::LlmFallback { prompt, schema } => NodeModel::LlmFallback {
                prompt: prompt@,
                schema: opt_model(*schema),
            },
            DecisionNode::Intrinsic { function, input_variable, output_variable, next } => NodeModel::Intrinsic {
                function: function@,
                input_variable: input_variable@,
                output_variable: output_variable@,
                next: next@,
            },
        }
    }
}

impl DecisionTree {
    /// Meaning of the nodes, by name.
    pub open spec fn nodes_model(&self) -> Map<Seq<char>, NodeModel> {
        self.nodes.model().map_values(|n: DecisionNode| n.model())
    }
}

/// Meaning of an execution result.
pub enum ResultModel {
    Value(ValueModel),
    Error(Seq<char>),
    LlmRequest(Seq<char>, Map<Seq<char>, ValueModel>),
}

/// The state at the end of a run: its result, the nodes visited, the variables.
pub struct RunState {
    pub result: ResultModel,
    pub path: Seq<Seq<char>>,
    pub vars: Map<Seq<char>, ValueModel>,
}

impl ExecutionResult {
    pub open spec fn model(&self) -> ResultModel {
        match self {
            ExecutionResult::Value(v) => ResultModel::Value(v.model()),
            ExecutionResult::Error(e) => ResultModel::Error(e@),
            ExecutionResult::LlmRequest { prompt, context } => ResultModel::LlmRequest(prompt@, context.model()),
        }
    }
}

/// The views of a sequence of strings.
pub open spec fn names_view(s: Seq<String>) -> Seq<Seq<char>> {
    s.map_values(|x: String| x@)
}

/// Most nodes a single run may visit.
pub open spec fn max_steps() -> nat {
    1000
}

/// Value of a variable, `Null` when it is absent.
pub open spec fn lookup_or_null(vars: Map<Seq<char>, ValueModel>, name: Seq<char>) -> ValueModel {
    if vars.contains_key(name) {
        vars[name]
    } else {
        ValueModel::Null
    }
}

/// Numeric-aware equality: numbers compare by value, other values by meaning.
pub open spec fn loosely_equal(a: ValueModel, b: ValueModel) -> bool {
    match num_compare(a, b) {
        Some(c) => c == 0,
        None => match (a, b) {
            (ValueModel::Int(_), ValueModel::Float(_)) => false,
            (ValueModel::Float(_), ValueModel::Int(_)) => false,
            (ValueModel::Float(_), ValueModel::Float(_)) => false,
            _ => a == b,
        },
    }
}

/// Whether `actual` satisfies `op` against `expected`.
pub open spec fn eval_op(op: Operator, actual: ValueModel, expected: ValueModel) -> bool {
    match op {
        Operator::IsNull => actual == ValueModel::Null,
        Operator::IsNotNull => actual != ValueModel::Null,
        Operator::Eq => loosely_equal(actual, expected),
        Operator::Neq => !loosely_equal(actual, expected),
        Operator::Gt => num_compare(actual, expected) == Some(1int),
        Operator::Gte => num_compare(actual, expected) == Some(1int) || num_compare(actual, expected) == Some(0int),
        Operator::Lt => num_compare(actual, expected) == Some(-1int),
        Operator::Lte => num_compare(actual, expected) == Some(-1int) || num_compare(actual, expected) == Some(0int),
        Operator::Contains => match (actual, expected) {
            (ValueModel::Str(a), ValueModel::Str(b)) => seq_contains(a, b),
            (ValueModel::Array(a), _) => a.contains(expected),
            _ => false,
        },
        Operator::Matches => match (actual, expected) {
            (ValueModel::Str(a), ValueModel::Str(b)) => seq_contains(a, b),
            _ => false,
        },
    }
}

/// Result of a built-in function, or `None` when it does not apply.
pub open spec fn apply_intrinsic(function: Seq<char>, input: ValueModel) -> Option<ValueModel> {
    if function == "copy"@ {
        Some(input)
    } else if function == "not"@ {
        match input {
            ValueModel::Bool(b) => Some(ValueModel::Bool(!b)),
            _ => None,
        }
    } else {
        None
    }
}

/// The run of a tree from `node`, with `fuel` steps left.
pub open spec fn run_from(
    nodes: Map<Seq<char>, NodeModel>,
    node: Seq<char>,
    vars: Map<Seq<char>, ValueModel>,
    path: Seq<Seq<char>>,
    fuel: nat,
) -> RunState
    decreases fuel,
{
    if fuel == 0 {
        RunState { result: ResultModel::Error("Maximum execution depth exceeded"@), path, vars }
    } else if !nodes.contains_key(node) {
        RunState { result: ResultModel::Error("Node not found: "@ + node), path, vars }
    } else {
        let path2 = path.push(node);
        match nodes[node] {
            NodeModel::Condition { variable, operator, value, true_next, false_next } => {
                let expected = match value {
                    Some(v) => v,
                    None => ValueModel::Null,
                };
                let next = if eval_op(operator, lookup_or_null(vars, variable), expected) {
                    true_next
                } else {
                    false_next
                };
                run_from(nodes, next, vars, path2, (fuel - 1) as nat)
            },
            NodeModel::Return { value } => RunState { result: ResultModel::Value(value), path: path2, vars },
            NodeModel::Action { action, target, value, next } => {
                let vars2 = match value {
                    Some(v) => vars.insert(target, v),
                    None => vars,
                };
                match next {
                    Some(n) => run_from(nodes, n, vars2, path2, (fuel - 1) as nat),
                    None => RunState { result: ResultModel::Value(ValueModel::Object(vars2)), path: path2, vars: vars2 },
                }
            },
            NodeModel::LlmFallback { prompt, schema } => RunState {
                result: ResultModel::LlmRequest(prompt, vars),
                path: path2,
                vars,
            },
            NodeModel::Intrinsic { function, input_variable, output_variable, next } => {
                match apply_intrinsic(function, lookup_or_null(vars, input_variable)) {
                    Some(out) => run_from(nodes, next, vars.insert(output_variable, out), path2, (fuel - 1) as nat),
                    None => RunState { result: ResultModel::Error("Intrinsic failed: "@ + function), path: path2, vars },
                }
            },
        }
    }
}

/// Numeric-aware equality, computed.
pub fn loose_eq(a: &Value, b: &Value) -> (r: bool)
    ensures
        r == loosely_equal(a.model(), b.model()),
{
    match compare_numbers(a, b) {
        Some(c) => c == 0,
        None => match (a, b) {
            (Value::Int(_), Value::Float(_)) => false,
            (Value::Float(_), Value::Int(_)) => false,
            (Value::Float(_), Value::Float(_)) => false,
            _ => a.equals(b),
        },
    }
}

/// On integers the operators mean what arithmetic says: `a < b` for lt,
/// `a <= b` for lte, `a > b` for gt, `a >= b` for gte, `a == b` for eq and
/// `a != b` for neq. The null tests look only at the actual value.
pub proof fn lemma_eval_op_integers(a: int, b: int, v: ValueModel, w: ValueModel)
    ensures
        eval_op(Operator::Lt, ValueModel::Int(a), ValueModel::Int(b)) == (a < b),
        eval_op(Operator::Lte, ValueModel::Int(a), ValueModel::Int(b)) == (a <= b),
        eval_op(Operator::Gt, ValueModel::Int(a), ValueModel::Int(b)) == (a > b),
        eval_op(Operator::Gte, ValueModel::Int(a), ValueModel::Int(b)) == (a >= b),
        eval_op(Operator::Eq, ValueModel::Int(a), ValueModel::Int(b)) == (a == b),
        eval_op(Operator::Neq, ValueModel::Int(a), ValueModel::Int(b)) == (a != b),
        eval_op(Operator::IsNull, v, w) == (v == ValueModel::Null),
        eval_op(Operator::IsNotNull, v, w) == (v != ValueModel::Null),
{
}

/// How the comparisons relate, on any two values: `a < b` is `b > a`,
/// `a <= b` is `b >= a`, `!=` is not `==`, less-than implies at most and
/// excludes at least, and where the two compare as numbers at most is
/// exactly not above and at least exactly not below.
pub proof fn lemma_eval_op_relations(a: ValueModel, b: ValueModel)
    ensures
        eval_op(Operator::Lt, a, b) == eval_op(Operator::Gt, b, a),
        eval_op(Operator::Lte, a, b) == eval_op(Operator::Gte, b, a),
        eval_op(Operator::Neq, a, b) == !eval_op(Operator::Eq, a, b),
        eval_op(Operator::Lt, a, b) ==> eval_op(Operator::Lte, a, b) && !eval_op(Operator::Gte, a, b),
        eval_op(Operator::Gt, a, b) ==> eval_op(Operator::Gte, a, b) && !eval_op(Operator::Lte, a, b),
        crate::number::num_compare(a, b) is Some ==> (eval_op(Operator::Lte, a, b) == !eval_op(Operator::Gt, a, b)
            && eval_op(Operator::Gte, a, b) == !eval_op(Operator::Lt, a, b)),
{
}

/// A text contains each of its pieces, and matches them; an array contains
/// each of its elements.
pub proof fn lemma_eval_op_contains(x: Seq<char>, piece: Seq<char>, y: Seq<char>, items: Seq<ValueModel>, i: int)
    requires
        0 <= i < items.len(),
    ensures
        eval_op(Operator::Contains, ValueModel::Str(x + piece + y), ValueModel::Str(piece)),
        eval_op(Operator::Matches, ValueModel::Str(x + piece + y), ValueModel::Str(piece)),
        eval_op(Operator::Contains, ValueModel::Array(items), items[i]),
{
    let s = x + piece + y;
    assert(s.subrange(x.len() as int, (x.len() + piece.len()) as int) =~= piece);
    assert(items.contains(items[i]));
}

/// One step of a run from a node that exists, with steps left: a condition
/// goes on to its true branch when its test holds against the value it
/// names (null when the variable is absent) and to its false branch
/// otherwise; a return ends the run with its value; an action sets its
/// target (when it has a value) and goes on to its successor, or ends with
/// the variables when it has none. Each visited node is added to the path.
/// A missing node ends the run with an error naming it.
pub proof fn lemma_run_step(
    nodes: Map<Seq<char>, NodeModel>,
    node: Seq<char>,
    vars: Map<Seq<char>, ValueModel>,
    path: Seq<Seq<char>>,
    fuel: nat,
)
    requires
        fuel > 0,
    ensures
        !nodes.contains_key(node) ==> run_from(nodes, node, vars, path, fuel).result == ResultModel::Error(
            "Node not found: "@ + node,
        ),
        nodes.contains_key(node) ==> match nodes[node] {
            NodeModel::Condition { variable, operator, value, true_next, false_next } => {
                let actual = if vars.contains_key(variable) {
                    vars[variable]
                } else {
                    ValueModel::Null
                };
                let expected = match value {
                    Some(v) => v,
                    None => ValueModel::Null,
                };
                &&& eval_op(operator, actual, expected) ==> run_from(nodes, node, vars, path, fuel) == run_from(
                    nodes,
                    true_next,
                    vars,
                    path.push(node),
                    (fuel - 1) as nat,
                )
                &&& !eval_op(operator, actual, expected) ==> run_from(nodes, node, vars, path, fuel) == run_from(
                    nodes,
                    false_next,
                    vars,
                    path.push(node),
                    (fuel - 1) as nat,
                )
            },
            NodeModel::Return { value } => run_from(nodes, node, vars, path, fuel) == RunState {
                result: ResultModel::Value(value),
                path: path.push(node),
                vars,
            },
            NodeModel::Action { action, target, value: Some(v), next: Some(n) } => run_from(nodes, node, vars, path, fuel)
                == run_from(nodes, n, vars.insert(target, v), path.push(node), (fuel - 1) as nat),
            NodeModel::Action { action, target, value: Some(v), next: None } => run_from(nodes, node, vars, path, fuel).result
                == ResultModel::Value(ValueModel::Object(vars.insert(target, v))),
            _ => true,
        },
{
}

/// A run with no steps left ends with the depth error, without visiting a
/// node.
pub proof fn lemma_run_out_of_steps(nodes: Map<Seq<char>, NodeModel>, node: Seq<char>, vars: Map<Seq<char>, ValueModel>, path: Seq<Seq<char>>)
    ensures
        run_from(nodes, node, vars, path, 0).result == ResultModel::Error("Maximum execution depth exceeded"@),
        run_from(nodes, node, vars, path, 0).path == path,
{
}

/// Whether `actual` satisfies `op` against `expected`, computed.
pub fn evaluate(op: Operator, actual: &Value, expected: &Value) -> (r: bool)
    ensures
        r == eval_op(op, actual.model(), expected.model()),
{
    match op {
        Operator::IsNull => matches!(actual, Value::Null),
        Operator::IsNotNull => !matches!(actual, Value::Null),
        Operator::Eq => loose_eq(actual, expected),
        Operator::Neq => !loose_eq(actual, expected),
        Operator::Gt => compare_numbers(actual, expected) == Some(1i8),
        Operator::Gte => {
            let c = compare_numbers(actual, expected);
            c == Some(1i8) || c == Some(0i8)
        },
        Operator::Lt => compare_numbers(actual, expected) == Some(-1i8),
        Operator::Lte => {
            let c = compare_numbers(actual, expected);
            c == Some(-1i8) || c == Some(0i8)
        },
        Operator::Contains => match (actual, expected) {
            (Value::String(a), Value::String(b)) => str_contains(a.as_str(), b.as_str()),
            (Value::Array(a), _) => array_contains(a, expected),
            _ => false,
        },
        Operator::Matches => match (actual, expected) {
            (Value::String(a), Value::String(b)) => str_contains(a.as_str(), b.as_str()),
            _ => false,
        },
    }
}

/// True when some element of `a` has the meaning of `x`.
fn array_contains(a: &Vec<Value>, x: &Value) -> (r: bool)
    ensures
        r == crate::value::values_model(a@).contains(x.model()),
{
    proof {
        crate::value::lemma_values_model(a@);
    }
    let mut i: usize = 0;
    while i < a.len()
        invariant
            i <= a@.len(),
            crate::value::values_model(a@).len() == a@.len(),
            forall|j: int| 0 <= j < a@.len() ==> #[trigger] crate::value::values_model(a@)[j] == a@[j].model(),
            forall|j: int| 0 <= j < i ==> a@[j].model() != x.model(),
        decreases a@.len() - i,
    {
        if a[i].equals(x) {
            proof {
                assert(crate::value::values_model(a@)[i as int] == x.model());
            }
            return true;
        }
        i = i + 1;
    }
    false
}

/// Apply a built-in function, computed.
fn run_intrinsic(function: &str, input: &Value) -> (r: Option<Value>)
    ensures
        r is Some == apply_intrinsic(function@, input.model()) is Some,
        r is Some ==> r->0.model() == apply_intrinsic(function@, input.model())->0,
{
    let copy = "copy";
    let not = "not";
    proof {
        reveal_strlit("copy");
        reveal_strlit("not");
    }
    if crate::value::str_eq(function, copy) {
        Some(input.clone())
    } else if crate::value::str_eq(function, not) {
        match input {
            Value::Bool(b) => Some(Value::Bool(!*b)),
            _ => None,
        }
    } else {
        None
    }
}

impl DecisionEngine {
    /// An engine for `tree`.
    pub fn new(tree: DecisionTree) -> (e: DecisionEngine)
        ensures
            e.tree == tree,
    {
        DecisionEngine { tree }
    }

    /// Run the tree from its start node, updating the context's variables and
    /// appending each visited node to its path.
    pub fn execute(&self, ctx: &mut DecisionContext) -> (r: ExecutionResult)
        ensures
            ({
                let s = run_from(
                    self.tree.nodes_model(),
                    self.tree.start@,
                    old(ctx).variables.model(),
                    names_view(old(ctx).execution_path@),
                    max_steps(),
                );
                &&& r.model() == s.result
                &&& names_view(final(ctx).execution_path@) == s.path
                &&& final(ctx).variables.model() == s.vars
            }),
    {
        execute_tree(&self.tree, ctx)
    }
}

/// Run `tree` from its start node, updating the context's variables and
/// appending each visited node to its path.
pub fn execute_tree(tree: &DecisionTree, ctx: &mut DecisionContext) -> (r: ExecutionResult)
    ensures
        ({
            let s = run_from(
                tree.nodes_model(),
                tree.start@,
                old(ctx).variables.model(),
                names_view(old(ctx).execution_path@),
                max_steps(),
            );
            &&& r.model() == s.result
            &&& names_view(final(ctx).execution_path@) == s.path
            &&& final(ctx).variables.model() == s.vars
        }),
{
    let ghost nodes = tree.nodes_model();
    let ghost target = run_from(
        nodes,
        tree.start@,
        ctx.variables.model(),
        names_view(ctx.execution_path@),
        max_steps(),
    );
    let mut current: String = tree.start.clone();
    let mut fuel: u64 = 1000;
    loop
        invariant
            nodes == tree.nodes_model(),
            fuel <= 1000,
            target == run_from(
                tree.nodes_model(),
                tree.start@,
                old(ctx).variables.model(),
                names_view(old(ctx).execution_path@),
                max_steps(),
            ),
            run_from(nodes, current@, ctx.variables.model(), names_view(ctx.execution_path@), fuel as nat) == target,
        decreases fuel,
    {
        if fuel == 0 {
            return ExecutionResult::Error(String::from_str("Maximum execution depth exceeded"));
        }
        let node = match tree.nodes.get(current.as_str()) {
            None => {
                return ExecutionResult::Error(concat("Node not found: ", current.as_str()));
            },
            Some(n) => n,
        };
        let ghost old_path = ctx.execution_path@;
        ctx.execution_path.push(current.clone());
        proof {
            assert(names_view(ctx.execution_path@) =~= names_view(old_path).push(current@));
        }
        match node {
            DecisionNode::Condition { variable, operator, value, true_next, false_next } => {
                let null = Value::Null;
                let actual: &Value = match ctx.variables.get(variable.as_str()) {
                    Some(v) => v,
                    None => &null,
                };
                let expected: &Value = match value {
                    Some(v) => v,
                    None => &null,
                };
                if evaluate(*operator, actual, expected) {
                    current = true_next.clone();
                } else {
                    current = false_next.clone();
                }
            },
            DecisionNode::Return { value } => {
                return ExecutionResult::Value(value.clone());
            },
            DecisionNode::Action { action, target, value, next } => {
                match value {
                    Some(v) => {
                        ctx.variables.insert(target.clone(), v.clone());
                    },
                    None => {},
                }
                match next {
                    Some(n) => {
                        current = n.clone();
                    },
                    None => {
                        return ExecutionResult::Value(Value::Object(ctx.variables.clone()));
                    },
                }
            },
            DecisionNode::LlmFallback { prompt, schema } => {
                return ExecutionResult::LlmRequest { prompt: prompt.clone(), context: ctx.variables.clone() };
            },
            DecisionNode::Intrinsic { function, input_variable, output_variable, next } => {
                let null = Value::Null;
                let input: &Value = match ctx.variables.get(input_variable.as_str()) {
                    Some(v) => v,
                    None => &null,
                };
                match run_intrinsic(function.as_str(), input) {
                    Some(out) => {
                        ctx.variables.insert(output_variable.clone(), out);
                        current = next.clone();
                    },
                    None => {
                        return ExecutionResult::Error(concat("Intrinsic failed: ", function.as_str()));
                    },
                }
            },
        }
        fuel = fuel - 1;
    }
}

} // verus!
