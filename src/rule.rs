use vstd::prelude::*;
use crate::value::Value;

verus! {

/// A deferred property rule. It is evaluated afresh on every render, against
/// the live state that the host hands in for that frame.
#[derive(Debug)]
pub enum Evaluator {
    /// Always yields this value.
    Const(Value),
    /// Yields the current value of this slot of the live state.
    State(usize),
}

/// What an evaluator yields against a given live state; `None` when it reads a
/// slot that the state does not have.
pub open spec fn eval_spec(e: Evaluator, state: Seq<Value>) -> Option<Value> {
    match e {
        Evaluator::Const(v) => Some(v),
        Evaluator::State(i) => if i < state.len() {
            Some(state[i as int])
        } else {
            None
        },
    }
}

impl Evaluator {
    pub fn evaluate(&self, state: &Vec<Value>) -> (r: Option<Value>)
        ensures
            r == eval_spec(*self, state@),
    {
        match self {
            Evaluator::Const(v) => Some(v.duplicate()),
            Evaluator::State(i) => if *i < state.len() {
                Some(state[*i].duplicate())
            } else {
                None
            },
        }
    }
}

} // verus!
