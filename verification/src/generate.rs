//! Generating a threshold microgram, with boundary tests, from a short spec.
use vstd::prelude::*;
use crate::value::{Value, ValueModel, FieldMap, keys_unique, str_eq};
use crate::engine::{DecisionNode, DecisionTree, NodeModel, Operator, run_from, max_steps};
use crate::strmap::StrMap;
use crate::microgram::{Microgram, MicrogramTest, run_output, tree_run, expectations_hold};
use crate::number::sign;

verus! {

/// What a generated microgram checks: `variable <operator> threshold`, and
/// the single field it outputs either way.
#[derive(Debug, Clone)]
pub struct MicrogramSpec {
    pub name: String,
    pub description: String,
    pub variable: String,
    /// One of gt, gte, lt, lte, eq, is_null, is_not_null, matches.
    pub operator: String,
    pub threshold: Value,
    pub true_label: String,
    pub true_value: Value,
    pub false_label: String,
    pub false_value: Value,
}

/// The operator a name stands for; an unknown name means `Eq`.
pub open spec fn operator_named(s: Seq<char>) -> Operator {
    if s == "gt"@ {
        Operator::Gt
    } else if s == "gte"@ {
        Operator::Gte
    } else if s == "lt"@ {
        Operator::Lt
    } else if s == "lte"@ {
        Operator::Lte
    } else if s == "eq"@ {
        Operator::Eq
    } else if s == "is_null"@ {
        Operator::IsNull
    } else if s == "is_not_null"@ {
        Operator::IsNotNull
    } else if s == "matches"@ {
        Operator::Matches
    } else {
        Operator::Eq
    }
}

/// The operator named `s` (an unknown name means `Eq`).
pub fn parse_operator(s: &str) -> (op: Operator)
    ensures
        op == operator_named(s@),
{
    if str_eq(s, "gt") {
        Operator::Gt
    } else if str_eq(s, "gte") {
        Operator::Gte
    } else if str_eq(s, "lt") {
        Operator::Lt
    } else if str_eq(s, "lte") {
        Operator::Lte
    } else if str_eq(s, "eq") {
        Operator::Eq
    } else if str_eq(s, "is_null") {
        Operator::IsNull
    } else if str_eq(s, "is_not_null") {
        Operator::IsNotNull
    } else if str_eq(s, "matches") {
        Operator::Matches
    } else {
        Operator::Eq
    }
}

/// A map with one field.
pub open spec fn single(k: Seq<char>, v: ValueModel) -> Map<Seq<char>, ValueModel> {
    Map::empty().insert(k, v)
}

/// The nodes of the generated tree: `check` compares and goes to `yes` or
/// `no`, which return the true or the false output.
pub open spec fn built_nodes(s: MicrogramSpec) -> Map<Seq<char>, NodeModel> {
    Map::empty().insert(
        "check"@,
        NodeModel::Condition {
            variable: s.variable@,
            operator: operator_named(s.operator@),
            value: Some(s.threshold.model()),
            true_next: "yes"@,
            false_next: "no"@,
        },
    ).insert("yes"@, NodeModel::Return { value: ValueModel::Object(single(s.true_label@, s.true_value.model())) }).insert(
        "no"@,
        NodeModel::Return { value: ValueModel::Object(single(s.false_label@, s.false_value.model())) },
    )
}

/// The boundary tests, as (input, expected output). For a numeric threshold:
/// at, just above and just below it (`steps` holds the bit patterns of the
/// float threshold plus and minus one); otherwise one test at the threshold.
pub open spec fn generated_tests(s: MicrogramSpec, steps: Option<(u64, u64)>) -> Seq<
    (Map<Seq<char>, ValueModel>, Map<Seq<char>, ValueModel>),
> {
    let var = s.variable@;
    let yes = single(s.true_label@, s.true_value.model());
    let no = single(s.false_label@, s.false_value.model());
    match s.threshold {
        Value::Int(n) => seq![
            (single(var, ValueModel::Int(n as int)), if s.operator@ == "gt"@ || s.operator@ == "matches"@ {
                no
            } else {
                yes
            }),
            (single(var, ValueModel::Int(n + 1)), yes),
            (single(var, ValueModel::Int(n - 1)), no),
        ],
        Value::Float(f) => seq![
            (single(var, Value::Float(f).model()), if s.operator@ == "gt"@ {
                no
            } else {
                yes
            }),
            (single(var, Value::Float(steps.unwrap().0).model()), yes),
            (single(var, Value::Float(steps.unwrap().1).model()), no),
        ],
        _ => seq![(single(var, s.threshold.model()), yes)],
    }
}

/// The tests as plain values: input and expected output of each.
pub open spec fn tests_view(t: Seq<MicrogramTest>) -> Seq<(Map<Seq<char>, ValueModel>, Map<Seq<char>, ValueModel>)> {
    t.map_values(|x: MicrogramTest| (x.input.model(), x.expect.model()))
}

fn one_field(k: &String, v: &Value) -> (m: FieldMap)
    ensures
        m.model() == single(k@, v.model()),
        keys_unique(m.entries@),
{
    let mut m = FieldMap::new();
    m.insert(k.clone(), v.clone());
    proof {
        assert(m.model() =~= single(k@, v.model()));
    }
    m
}

impl MicrogramSpec {
    /// The boundary tests of this spec; `float_steps` holds the bit patterns
    /// of a float threshold plus one and minus one.
    pub fn generate_tests(&self, float_steps: Option<(u64, u64)>) -> (r: Vec<MicrogramTest>)
        requires
            self.threshold is Float ==> float_steps is Some,
            self.threshold is Int ==> i64::MIN < self.threshold->Int_0 < i64::MAX,
        ensures
            tests_view(r@) == generated_tests(*self, float_steps),
            forall|i: int| 0 <= i < r@.len() ==> keys_unique((#[trigger] r@[i]).expect.entries@),
    {
        let mut tests: Vec<MicrogramTest> = Vec::new();
        let yes = one_field(&self.true_label, &self.true_value);
        let no = one_field(&self.false_label, &self.false_value);
        match &self.threshold {
            Value::Int(n) => {
                let at_expect = if str_eq(self.operator.as_str(), "gt") || str_eq(self.operator.as_str(), "matches") {
                    no.clone()
                } else {
                    yes.clone()
                };
                tests.push(MicrogramTest { input: one_field(&self.variable, &Value::Int(*n)), expect: at_expect });
                tests.push(MicrogramTest { input: one_field(&self.variable, &Value::Int(*n + 1)), expect: yes });
                tests.push(MicrogramTest { input: one_field(&self.variable, &Value::Int(*n - 1)), expect: no });
            },
            Value::Float(f) => {
                let (above, below) = match float_steps {
                    Some(p) => p,
                    None => (*f, *f),
                };
                let at_expect = if str_eq(self.operator.as_str(), "gt") {
                    no.clone()
                } else {
                    yes.clone()
                };
                tests.push(MicrogramTest { input: one_field(&self.variable, &Value::Float(*f)), expect: at_expect });
                tests.push(MicrogramTest { input: one_field(&self.variable, &Value::Float(above)), expect: yes });
                tests.push(MicrogramTest { input: one_field(&self.variable, &Value::Float(below)), expect: no });
            },
            _ => {
                tests.push(MicrogramTest { input: one_field(&self.variable, &self.threshold), expect: yes });
            },
        }
        proof {
            assert(tests_view(tests@) =~= generated_tests(*self, float_steps));
        }
        tests
    }

    /// The microgram this spec describes: a `check` condition node leading
    /// to `yes` or `no` return nodes, version 0.1.0, no interface and no
    /// signature, with the generated boundary tests.
    pub fn build(&self, float_steps: Option<(u64, u64)>) -> (mg: Microgram)
        requires
            self.threshold is Float ==> float_steps is Some,
            self.threshold is Int ==> i64::MIN < self.threshold->Int_0 < i64::MAX,
        ensures
            mg.name@ == self.name@,
            mg.description@ == self.description@,
            mg.version@ == "0.1.0"@,
            mg.tree.start@ == "check"@,
            mg.tree.nodes_model() == built_nodes(*self),
            tests_view(mg.tests@) == generated_tests(*self, float_steps),
            forall|i: int| 0 <= i < mg.tests@.len() ==> keys_unique((#[trigger] mg.tests@[i]).expect.entries@),
            mg.interface is None,
            mg.primitive_signature is None,
    {
        let operator = parse_operator(self.operator.as_str());
        let yes = one_field(&self.true_label, &self.true_value);
        let no = one_field(&self.false_label, &self.false_value);
        let mut nodes: StrMap<DecisionNode> = StrMap::new();
        nodes.insert(
            String::from_str("check"),
            DecisionNode::Condition {
                variable: self.variable.clone(),
                operator,
                value: Some(self.threshold.clone()),
                true_next: String::from_str("yes"),
                false_next: String::from_str("no"),
            },
        );
        nodes.insert(String::from_str("yes"), DecisionNode::Return { value: Value::Object(yes) });
        nodes.insert(String::from_str("no"), DecisionNode::Return { value: Value::Object(no) });
        let tree = DecisionTree { start: String::from_str("check"), nodes };
        proof {
            assert(tree.nodes_model() =~= built_nodes(*self));
        }
        let tests = self.generate_tests(float_steps);
        Microgram {
            name: self.name.clone(),
            description: self.description.clone(),
            version: String::from_str("0.1.0"),
            tree,
            tests,
            interface: None,
            primitive_signature: None,
        }
    }
}

/// A generated microgram with a `gt` or `gte` operator and an integer
/// threshold passes every one of its generated boundary tests: the output
/// of each test's input holds the expected field.
pub proof fn lemma_generated_tests_pass(s: MicrogramSpec, mg: Microgram)
    requires
        s.operator@ == "gt"@ || s.operator@ == "gte"@,
        s.threshold is Int,
        i64::MIN < s.threshold->Int_0 < i64::MAX,
        mg.tree.start@ == "check"@,
        mg.tree.nodes_model() == built_nodes(s),
    ensures
        forall|i: int|
            0 <= i < generated_tests(s, None).len() ==> expectations_hold(
                (#[trigger] generated_tests(s, None)[i]).1,
                run_output(mg, generated_tests(s, None)[i].0),
            ),
{
    reveal_strlit("gt");
    reveal_strlit("gte");
    reveal_strlit("matches");
    reveal_strlit("check");
    reveal_strlit("yes");
    reveal_strlit("no");
    let nodes = mg.tree.nodes_model();
    let n = s.threshold->Int_0 as int;
    let var = s.variable@;
    let op = operator_named(s.operator@);
    assert(op == Operator::Gt || op == Operator::Gte);
    let tests = generated_tests(s, None);
    assert forall|i: int| 0 <= i < tests.len() implies expectations_hold(
        (#[trigger] tests[i]).1,
        run_output(mg, tests[i].0),
    ) by {
        let input = tests[i].0;
        let x: int = if i == 0 {
            n
        } else if i == 1 {
            n + 1
        } else {
            n - 1
        };
        assert(input == single(var, ValueModel::Int(x)));
        assert(input[var] == ValueModel::Int(x));
        let fuel = max_steps();
        let first = run_from(nodes, "check"@, input, Seq::empty(), fuel);
        let taken = if (op == Operator::Gt && x > n) || (op == Operator::Gte && x >= n) {
            "yes"@
        } else {
            "no"@
        };
        assert(sign(x - n) == if x > n { 1int } else if x == n { 0int } else { -1int });
        assert(first == run_from(nodes, taken, input, seq!["check"@], (fuel - 1) as nat));
        let second = run_from(nodes, taken, input, seq!["check"@], (fuel - 1) as nat);
        let out = if taken == "yes"@ {
            single(s.true_label@, s.true_value.model())
        } else {
            single(s.false_label@, s.false_value.model())
        };
        assert(second.result == crate::engine::ResultModel::Value(ValueModel::Object(out)));
        assert(tree_run(mg, input) == first);
        assert(run_output(mg, input) == out);
        assert("yes"@ != "no"@);
        assert("gte"@.len() == 3 && "gt"@.len() == 2 && "matches"@.len() == 7);
        assert("gte"@ != "gt"@);
        assert("gte"@ != "matches"@);
        if i == 0 {
            if s.operator@ == "gt"@ {
                assert(op == Operator::Gt);
                assert(taken == "no"@);
            } else {
                assert(op == Operator::Gte);
                assert(taken == "yes"@);
            }
        } else if i == 1 {
            assert(taken == "yes"@);
        } else {
            assert(taken == "no"@);
        }
        assert(tests[i].1 == out);
    }
}

} // verus!
