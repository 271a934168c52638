use vstd::prelude::*;

verus! {

/// A value that lives on the heap.
pub enum LoxObject {
    String(String),
}

impl LoxObject {
    /// The characters of a string object.
    pub open spec fn text(&self) -> Seq<char> {
        match self {
            LoxObject::String(s) => s@,
        }
    }

    /// A string object holding `string`.
    pub fn string(string: String) -> (o: Self)
        ensures
            o.text() == string@,
            o is String,
    {
        LoxObject::String(string)
    }
}

impl PartialEq for LoxObject {
    fn eq(&self, other: &Self) -> (r: bool) {
        match (self, other) {
            (LoxObject::String(this), LoxObject::String(that)) => String::eq(this, that),
        }
    }
}

impl vstd::std_specs::cmp::PartialEqSpecImpl for LoxObject {
    open spec fn obeys_eq_spec() -> bool {
        true
    }

    open spec fn eq_spec(&self, other: &Self) -> bool {
        self.text() == other.text()
    }
}

} // verus!
