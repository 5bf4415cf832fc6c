use vstd::prelude::*;

pub mod value;
pub mod number;
pub mod strmap;
pub mod text;
pub mod engine;
pub mod debug;
pub mod clock;
pub mod microgram;
pub mod chain;
pub mod chain_validation;
pub mod chain_loop;
pub mod taxonomy;
pub mod signature_validator;
pub mod levenshtein;
pub mod routing;
pub mod index;
pub mod generate;
pub mod chain_checks;
pub mod interface;
pub mod compose;
pub mod pipe;
pub mod compare;
pub mod mutate;
pub mod explore;
pub mod catalog;
pub mod contracts;
pub mod chain_registry;
pub mod patrol;
pub mod state_manager;
pub mod session_tracker;
pub mod skill_registry;
pub mod stats;
pub mod hygiene;
pub mod snapshot;
pub mod exercise;
pub mod draws;
pub mod ordering;
pub mod state_server;
pub mod error;
pub mod taxonomy_query;
pub mod routing_match;

verus! {
} // verus!
