//! How a registered skill is executed.
use vstd::prelude::*;
use crate::engine::{DecisionTree, DecisionNode};
use crate::strmap::pairs_model;
use crate::value::str_eq;

verus! {

/// How a skill is executed.
#[derive(Debug, Clone, Copy, PartialEq, Eq, Structural)]
pub enum ExecutionStrategy {
    /// A built-in Rust implementation.
    RustIntrinsic,
    /// A decision tree with no LLM step.
    DeterministicLogic,
    /// A decision tree with LLM fallbacks.
    Hybrid,
    /// Prompting an LLM.
    PureLlm,
}

/// Some node of the tree asks for an LLM decision.
pub open spec fn has_llm_node(t: DecisionTree) -> bool {
    exists|k: Seq<char>| #[trigger] pairs_model(t.nodes.entries@).contains_key(k)
        && pairs_model(t.nodes.entries@)[k] is LlmFallback
}

/// Skills that are built in.
pub open spec fn is_intrinsic(name: Seq<char>) -> bool {
    name == "is-prime"@ || name == "topological-sort"@ || name == "levenshtein"@ || name == "sha256"@
}

/// The strategy of a skill named `name`, given its logic file: `None` when
/// it has none, `Some(None)` when the file does not parse as a decision tree,
/// and `Some(Some(tree))` otherwise.
pub open spec fn strategy_of(name: Seq<char>, logic: Option<Option<DecisionTree>>) -> ExecutionStrategy {
    match logic {
        Some(Some(t)) => if has_llm_node(t) {
            ExecutionStrategy::Hybrid
        } else {
            ExecutionStrategy::DeterministicLogic
        },
        Some(None) => ExecutionStrategy::PureLlm,
        None => if is_intrinsic(name) {
            ExecutionStrategy::RustIntrinsic
        } else {
            ExecutionStrategy::PureLlm
        },
    }
}

fn tree_has_llm(t: &DecisionTree) -> (r: bool)
    ensures
        r == has_llm_node(*t),
{
    let mut i: usize = 0;
    while i < t.nodes.entries.len()
        invariant
            i <= t.nodes.entries@.len(),
            forall|j: int|
                0 <= j < i && crate::strmap::pair_last_index(t.nodes.entries@, #[trigger] t.nodes.entries@[j].0@) == j
                    ==> !(t.nodes.entries@[j].1 is LlmFallback),
        decreases t.nodes.entries@.len() - i,
    {
        let is_llm = match &t.nodes.entries[i].1 {
            DecisionNode::LlmFallback { .. } => true,
            _ => false,
        };
        let live = match t.nodes.position(t.nodes.entries[i].0.as_str()) {
            Some(p) => p == i,
            None => false,
        };
        if is_llm && live {
            proof {
                let k = t.nodes.entries@[i as int].0@;
                crate::strmap::lemma_pairs_model_at(t.nodes.entries@, k);
            }
            return true;
        }
        i = i + 1;
    }
    proof {
        assert forall|k: Seq<char>| #[trigger] pairs_model(t.nodes.entries@).contains_key(k) implies !(pairs_model(
            t.nodes.entries@,
        )[k] is LlmFallback) by {
            crate::strmap::lemma_pairs_model_at(t.nodes.entries@, k);
            crate::strmap::lemma_pair_last_index(t.nodes.entries@, k);
            let p = crate::strmap::pair_last_index(t.nodes.entries@, k);
            assert(t.nodes.entries@[p].0@ == k);
        }
    }
    false
}

/// The execution strategy of a skill named `name`, given its logic file
/// (see [`strategy_of`]). A skill without a logic file is a built-in when
/// its name is one of the built-in skills.
pub fn choose_strategy(name: &str, logic: Option<Option<&DecisionTree>>) -> (r: ExecutionStrategy)
    ensures
        r == strategy_of(
            name@,
            match logic {
                Some(Some(t)) => Some(Some(*t)),
                Some(None) => Some(None),
                None => None,
            },
        ),
{
    match logic {
        Some(Some(t)) => {
            if tree_has_llm(t) {
                ExecutionStrategy::Hybrid
            } else {
                ExecutionStrategy::DeterministicLogic
            }
        },
        Some(None) => ExecutionStrategy::PureLlm,
        None => {
            if str_eq(name, "is-prime") || str_eq(name, "topological-sort") || str_eq(name, "levenshtein") || str_eq(
                name,
                "sha256",
            ) {
                ExecutionStrategy::RustIntrinsic
            } else {
                ExecutionStrategy::PureLlm
            }
        },
    }
}

} // verus!
