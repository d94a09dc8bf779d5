//! Completion values carried by tasks.

use vstd::prelude::*;

verus! {

/// A task's completion value: a number, or the pair that a join combinator
/// builds from its two children's values.
#[derive(PartialEq, Eq, Debug)]
pub enum Value {
    Num(u64),
    Pair(Box<Value>, Box<Value>),
}

impl Clone for Value {
    fn clone(&self) -> (r: Self)
        ensures
            r == *self,
        decreases *self,
    {
        match self {
            Value::Num(n) => Value::Num(*n),
            Value::Pair(a, b) => Value::Pair(Box::new((**a).clone()), Box::new((**b).clone())),
        }
    }
}

/// Copies an optional completion value.
pub fn clone_opt(o: &Option<Value>) -> (r: Option<Value>)
    ensures
        r == *o,
{
    match o {
        Option::None => Option::None,
        Option::Some(v) => Option::Some(v.clone()),
    }
}

} // verus!
