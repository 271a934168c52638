use vstd::prelude::*;

verus! {

/// A Lox value. A number is an IEEE-754 double, held by its bit pattern: the
/// library moves numbers around but leaves their arithmetic to its host.
#[derive(Debug, Clone, Copy, PartialEq, Eq, Structural)]
pub enum Value {
    Boolean(bool),
    Nil,
    Number(u64),
}

impl Value {
    /// Lox truthiness: `nil` and `false` are false, every other value is true.
    pub open spec fn truthy(self) -> bool {
        !(self is Nil || self == Value::Boolean(false))
    }

    /// Whether the value counts as true in a condition.
    pub fn is_truthy(&self) -> (b: bool)
        ensures
            b == self.truthy(),
    {
        match self {
            Value::Nil | Value::Boolean(false) => false,
            _ => true,
        }
    }
}

} // verus!

verus! {

/// Only `nil` and `false` count as false: a boolean counts as itself, and
/// every number, zero too, counts as true.
pub proof fn law_truthiness(v: Value)
    ensures
        v is Nil ==> !v.truthy(),
        v matches Value::Boolean(b) ==> v.truthy() == b,
        v is Number ==> v.truthy(),
{
}

} // verus!
