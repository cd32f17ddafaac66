//! A modding-oriented state game: a declarative policy graph evaluator,
//! a persistent vector, the game script tokenizer and parser, and the
//! instruction set with its static verifier.

use vstd::prelude::*;

pub mod bound;
pub mod compiler;
pub mod helper;
pub mod mod_loader;
pub mod mod_metadata;
pub mod persistent_vector;
pub mod policy_graph;
pub mod runtime_task;
pub mod virtual_machine;

verus! {

/// A game state. The engine moves from state to state; what a state holds is
/// up to the game.
pub trait State: Send + Sync {
}

#[derive(Clone, Debug, Hash, PartialEq, Eq)]
pub struct Identifier(pub String);

#[derive(Clone, Debug, Hash, PartialEq, Eq)]
pub struct Namespace(pub String);

// Input layer

pub trait InputSchema {
    fn identifier(&self) -> Identifier;
}

pub trait Input: Send + Sync {
    fn schema(&self) -> Identifier;
}

// Execution context

pub struct Context {
    pub rng_seed: u64,
}

// Engine output

pub enum StepResult {
    Next(Box<dyn State>),
    RequiresInput(InputSpace),
}

pub struct InputSpace {
    pub schemas: Vec<Box<dyn InputSchema>>,
}

// Core engine

pub trait GameEngine {
    fn step(&self, state: Box<dyn State>, context: Context) -> StepResult;
}

// Input pipeline

pub trait InputProvider {
    fn provide(&self, state: &Box<dyn State>) -> Vec<Box<dyn InputSchema>>;
}

pub trait InputGenerator {
    fn generate(&self, schema: &Box<dyn InputSchema>) -> Vec<Box<dyn Input>>;
}

pub trait InputFilter {
    fn allow(&self, state: &Box<dyn State>, input: &Box<dyn Input>) -> bool;
}

// State transition

pub trait StateTransformer {
    fn apply(&self, state: &Box<dyn State>, input: &Box<dyn Input>) -> Option<Box<dyn State>>;
}

// Terminal condition

pub trait TerminalCondition {
    fn is_terminal(&self, state: &Box<dyn State>) -> bool;
}

} // verus!
