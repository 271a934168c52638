use vstd::prelude::*;

use crate::parser::ParserError;
use crate::text::{push_decimal, push_str, decimal};

verus! {

/// An error met while running bytecode: what went wrong and, once known,
/// the line of source it happened on.
#[derive(Debug)]
pub struct RuntimeError {
    reason: String,
    line: Option<usize>,
}

impl RuntimeError {
    pub closed spec fn reason(&self) -> Seq<char> {
        self.reason@
    }

    pub closed spec fn line(&self) -> Option<usize> {
        self.line
    }

    /// An error for `reason`, with no line yet.
    pub fn new(reason: &str) -> (e: Self)
        ensures
            e.reason() == reason@,
            e.line() is None,
    {
        let mut text = String::new();
        push_str(&mut text, reason);
        Self { reason: text, line: None }
    }

    /// An error whose reason is `reason`, with no line yet.
    pub fn from_reason(reason: String) -> (e: Self)
        ensures
            e.reason() == reason@,
            e.line() is None,
    {
        Self { reason, line: None }
    }

    /// Records the line the error happened on.
    pub fn with_line(&mut self, line: usize) -> (r: &mut Self)
        ensures
            r.reason() == old(self).reason(),
            r.line() == Some(line),
            *final(self) == *final(r),
    {
        self.line = Some(line);
        self
    }

    /// The report of the error: the reason on a line of its own, then, where
    /// the line is known, `[line N] in script` on another.
    pub fn to_string(&self) -> (s: String)
        ensures
            s@ == self.report(),
    {
        let mut s = String::new();
        push_str(&mut s, self.reason.as_str());
        push_str(&mut s, "\n");
        match self.line {
            Some(line) => {
                push_str(&mut s, "[line ");
                push_decimal(&mut s, line);
                push_str(&mut s, "] in script\n");
            },
            None => {},
        }
        s
    }

    pub open spec fn report(&self) -> Seq<char> {
        match self.line() {
            Some(line) => self.reason() + "\n"@ + "[line "@ + decimal(line as nat) + "] in script\n"@,
            None => self.reason() + "\n"@,
        }
    }
}

/// Why interpreting a source failed.
#[derive(Debug, Clone, Copy, PartialEq, Eq, Structural)]
pub enum InterpretError {
    Compile,
    Runtime,
}

impl InterpretError {
    /// The status the process ends with: 65 for a compile error, 70 for a runtime error.
    pub fn exit_code(&self) -> (code: i32)
        ensures
            code == (match self {
                InterpretError::Compile => 65i32,
                InterpretError::Runtime => 70i32,
            }),
    {
        match self {
            InterpretError::Compile => 65,
            InterpretError::Runtime => 70,
        }
    }
}

impl From<ParserError> for InterpretError {
    /// A failed parse is a compile error.
    fn from(value: ParserError) -> (e: Self) {
        InterpretError::Compile
    }
}

impl vstd::std_specs::convert::FromSpecImpl<ParserError> for InterpretError {
    open spec fn obeys_from_spec() -> bool {
        true
    }

    open spec fn from_spec(v: ParserError) -> Self {
        InterpretError::Compile
    }
}

} // verus!

verus! {

/// A stack that could not take a value or had none to give.
#[derive(Debug, Clone, Copy, PartialEq, Eq, Structural)]
pub enum StackError {
    Overflow,
    Underflow,
}

impl StackError {
    pub open spec fn text(self) -> Seq<char> {
        match self {
            StackError::Overflow => "Stack overflow."@,
            StackError::Underflow => "Stack underflow."@,
        }
    }

    pub fn message(&self) -> (m: &'static str)
        ensures
            m@ == self.text(),
    {
        match self {
            StackError::Overflow => "Stack overflow.",
            StackError::Underflow => "Stack underflow.",
        }
    }
}

impl RuntimeError {
    /// The runtime error that reports a stack error.
    pub fn from_stack_error(value: StackError) -> (e: Self)
        ensures
            e.reason() == value.text(),
            e.line() is None,
    {
        Self::new(value.message())
    }
}

} // verus!
