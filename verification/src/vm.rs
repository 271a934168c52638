use vstd::prelude::*;

use crate::chunk::{decode_at, decodes_from, Chunk, ChunkIter, ChunkView, Instruction};
use crate::errors::{RuntimeError, StackError};
use crate::stack::Stack;
use crate::text::{decimal, push_decimal, push_str};
use crate::value::Value;

verus! {

pub const STACK_MAX: usize = 256;

/// An arithmetic operation on two numbers.
#[derive(Debug, Clone, Copy, PartialEq, Eq, Structural)]
pub enum ArithOp {
    Add,
    Subtract,
    Multiply,
    Divide,
}

/// A comparison of two numbers.
#[derive(Debug, Clone, Copy, PartialEq, Eq, Structural)]
pub enum CompareOp {
    Equal,
    Greater,
    Less,
}

/// What an instruction asks of the host. Number operations are the host's:
/// once it has computed the result, it hands it back with `push_result`
/// (a number for `Arithmetic` and `Negate`, a boolean for `Comparison`).
#[derive(Debug, Clone, Copy, PartialEq, Eq, Structural)]
pub enum Effect {
    Nothing,
    Print(Value),
    Arithmetic(ArithOp, u64, u64),
    Comparison(CompareOp, u64, u64),
    Negate(u64),
}

/// Why an instruction failed.
#[derive(Debug, Clone, Copy, PartialEq, Eq, Structural)]
pub enum Fault {
    Stack(StackError),
    OperandsMustBeNumbers,
    OperandMustBeNumber,
    UnknownOpcode(u8),
}

impl Fault {
    /// The reason a runtime error gives for the fault.
    pub open spec fn text(self) -> Seq<char> {
        match self {
            Fault::Stack(e) => e.text(),
            Fault::OperandsMustBeNumbers => "Operands must be numbers."@,
            Fault::OperandMustBeNumber => "Operand must be a number."@,
            Fault::UnknownOpcode(b) => "Unknown opcode "@ + decimal(b as nat),
        }
    }
}

/// An instruction that takes two operands off the stack, the right one first:
/// what is left of the stack, and the two operands where both were there.
pub open spec fn pop_two(stack: Seq<Value>) -> (Seq<Value>, Option<(Value, Value)>) {
    if stack.len() == 0 {
        (stack, None)
    } else if stack.len() == 1 {
        (stack.drop_last(), None)
    } else {
        (stack.drop_last().drop_last(), Some((stack[stack.len() - 2], stack.last())))
    }
}

/// One instruction on the stack: the stack after it, and what it asks of
/// the host or why it failed.
pub open spec fn execute(stack: Seq<Value>, instruction: Instruction) -> (Seq<Value>, Result<Effect, Fault>) {
    let underflow = Err::<Effect, Fault>(Fault::Stack(StackError::Underflow));
    match instruction {
        Instruction::Return => if stack.len() > 0 {
            (stack.drop_last(), Ok(Effect::Print(stack.last())))
        } else {
            (stack, underflow)
        },
        Instruction::Constant(v) => if stack.len() < STACK_MAX {
            (stack.push(v), Ok(Effect::Nothing))
        } else {
            (stack, Err(Fault::Stack(StackError::Overflow)))
        },
        Instruction::Add => arithmetic(stack, ArithOp::Add),
        Instruction::Subtract => arithmetic(stack, ArithOp::Subtract),
        Instruction::Multiply => arithmetic(stack, ArithOp::Multiply),
        Instruction::Divide => arithmetic(stack, ArithOp::Divide),
        Instruction::Greater => comparison(stack, CompareOp::Greater),
        Instruction::Less => comparison(stack, CompareOp::Less),
        Instruction::Equal => {
            let (rest, operands) = pop_two(stack);
            match operands {
                Some((Value::Number(a), Value::Number(b))) => (rest, Ok(Effect::Comparison(CompareOp::Equal, a, b))),
                Some((left, right)) => (rest.push(Value::Boolean(left == right)), Ok(Effect::Nothing)),
                None => (rest, underflow),
            }
        },
        Instruction::Not => if stack.len() > 0 {
            (stack.update(stack.len() - 1, Value::Boolean(!stack.last().truthy())), Ok(Effect::Nothing))
        } else {
            (stack, underflow)
        },
        Instruction::Negate => if stack.len() > 0 {
            match stack.last() {
                Value::Number(b) => (stack.drop_last(), Ok(Effect::Negate(b))),
                _ => (stack, Err(Fault::OperandMustBeNumber)),
            }
        } else {
            (stack, underflow)
        },
        Instruction::Unknown(b) => (stack, Err(Fault::UnknownOpcode(b))),
    }
}

pub open spec fn arithmetic(stack: Seq<Value>, op: ArithOp) -> (Seq<Value>, Result<Effect, Fault>) {
    let (rest, operands) = pop_two(stack);
    match operands {
        Some((Value::Number(a), Value::Number(b))) => (rest, Ok(Effect::Arithmetic(op, a, b))),
        Some(_) => (rest, Err(Fault::OperandsMustBeNumbers)),
        None => (rest, Err(Fault::Stack(StackError::Underflow))),
    }
}

pub open spec fn comparison(stack: Seq<Value>, op: CompareOp) -> (Seq<Value>, Result<Effect, Fault>) {
    let (rest, operands) = pop_two(stack);
    match operands {
        Some((Value::Number(a), Value::Number(b))) => (rest, Ok(Effect::Comparison(op, a, b))),
        Some(_) => (rest, Err(Fault::OperandsMustBeNumbers)),
        None => (rest, Err(Fault::Stack(StackError::Underflow))),
    }
}

/// A run of the machine over the instructions `is` from `stack`, with a host
/// that answers a number operation's effect `e` by putting `answer(e)` on the
/// stack: the fault that stops the run, if any.
pub open spec fn run(stack: Seq<Value>, is: Seq<Instruction>, answer: spec_fn(Effect) -> Value) -> Option<Fault>
    decreases is.len(),
{
    if is.len() == 0 {
        None
    } else {
        let (after, outcome) = execute(stack, is[0]);
        match outcome {
            Err(f) => Some(f),
            Ok(e) => match e {
                Effect::Arithmetic(..) | Effect::Comparison(..) | Effect::Negate(_) => if after.len() < STACK_MAX {
                    run(after.push(answer(e)), is.drop_first(), answer)
                } else {
                    Some(Fault::Stack(StackError::Overflow))
                },
                Effect::Nothing | Effect::Print(_) => run(after, is.drop_first(), answer),
            },
        }
    }
}

/// The virtual machine: a walk over a chunk and a stack of values.
pub struct Vm<'a> {
    ip: ChunkIter<'a>,
    stack: Stack<Value, STACK_MAX>,
}

impl<'a> Vm<'a> {
    /// The values on the stack, bottom first.
    pub closed spec fn stack(&self) -> Seq<Value> {
        self.stack@
    }

    /// The chunk being run.
    pub closed spec fn chunk(&self) -> ChunkView {
        self.ip.chunk()
    }

    /// The offset of the next instruction.
    pub closed spec fn offset(&self) -> int {
        self.ip.offset()
    }

    /// The offset of the instruction read last.
    pub closed spec fn current(&self) -> int {
        self.ip.current()
    }

    pub closed spec fn wf(&self) -> bool {
        &&& self.ip.wf()
        &&& self.stack.wf()
        &&& decodes_from(self.ip.chunk().code, self.ip.chunk().constants, self.ip.offset())
    }

    /// A machine at the first instruction of `chunk`, with an empty stack.
    pub fn new(chunk: &'a Chunk) -> (vm: Self)
        requires
            chunk.wf(),
            decodes_from(chunk@.code, chunk@.constants, 0),
        ensures
            vm.wf(),
            vm.chunk() == chunk@,
            vm.offset() == 0,
            vm.stack() == Seq::<Value>::empty(),
    {
        Self { ip: chunk.iter(), stack: Stack::new() }
    }

    /// Whether an instruction is left to run.
    pub fn has_next(&self) -> (b: bool)
        requires
            self.wf(),
        ensures
            b == (self.offset() < self.chunk().code.len()),
    {
        self.ip.has_next()
    }

    /// Reads the next instruction.
    pub fn next_instruction(&mut self) -> (instruction: Instruction)
        requires
            old(self).wf(),
            old(self).offset() < old(self).chunk().code.len(),
        ensures
            final(self).wf(),
            final(self).chunk() == old(self).chunk(),
            final(self).stack() == old(self).stack(),
            final(self).current() == old(self).offset(),
            (instruction, final(self).offset()) == decode_at(
                old(self).chunk().code,
                old(self).chunk().constants,
                old(self).offset(),
            ),
    {
        match self.ip.next() {
            Some((_, instruction)) => instruction,
            None => Instruction::Return,
        }
    }

    /// The source line of the instruction read last.
    pub fn line(&self) -> (line: usize)
        requires
            self.wf(),
            self.offset() > 0,
        ensures
            0 <= self.current() < self.offset(),
            line == self.chunk().lines[self.current()],
    {
        self.ip.line()
    }

    fn stack_pop(&mut self) -> (r: Result<Value, RuntimeError>)
        requires
            old(self).wf(),
        ensures
            final(self).wf(),
            final(self).chunk() == old(self).chunk(),
            final(self).offset() == old(self).offset(),
            final(self).current() == old(self).current(),
            old(self).stack().len() > 0 ==> r == Ok::<Value, RuntimeError>(old(self).stack().last())
                && final(self).stack() == old(self).stack().drop_last(),
            old(self).stack().len() == 0 ==> (r matches Err(e) && e.reason() == StackError::Underflow.text()
                && e.line() is None) && final(self).stack() == old(self).stack(),
    {
        match self.stack.pop() {
            Some(v) => Ok(v),
            None => Err(RuntimeError::from_stack_error(StackError::Underflow)),
        }
    }

    fn stack_push(&mut self, value: Value) -> (r: Result<(), RuntimeError>)
        requires
            old(self).wf(),
        ensures
            final(self).wf(),
            final(self).chunk() == old(self).chunk(),
            final(self).offset() == old(self).offset(),
            final(self).current() == old(self).current(),
            old(self).stack().len() < STACK_MAX ==> r is Ok && final(self).stack() == old(self).stack().push(value),
            old(self).stack().len() >= STACK_MAX ==> (r matches Err(e) && e.reason() == StackError::Overflow.text()
                && e.line() is None) && final(self).stack() == old(self).stack(),
    {
        match self.stack.push(value) {
            Ok(()) => Ok(()),
            Err(()) => Err(RuntimeError::from_stack_error(StackError::Overflow)),
        }
    }

    /// Hands back the result of a number operation: puts it on the stack.
    pub fn push_result(&mut self, value: Value) -> (r: Result<(), RuntimeError>)
        requires
            old(self).wf(),
        ensures
            final(self).wf(),
            final(self).chunk() == old(self).chunk(),
            final(self).offset() == old(self).offset(),
            final(self).current() == old(self).current(),
            old(self).stack().len() < STACK_MAX ==> r is Ok && final(self).stack() == old(self).stack().push(value),
            old(self).stack().len() >= STACK_MAX ==> (r matches Err(e) && e.reason() == StackError::Overflow.text()
                && e.line() is None) && final(self).stack() == old(self).stack(),
    {
        self.stack_push(value)
    }

    fn try_run_arithmetic_op(&mut self, op: ArithOp) -> (r: Result<Effect, RuntimeError>)
        requires
            old(self).wf(),
        ensures
            final(self).wf(),
            final(self).chunk() == old(self).chunk(),
            final(self).offset() == old(self).offset(),
            final(self).current() == old(self).current(),
            ({
                let (stack, outcome) = arithmetic(old(self).stack(), op);
                &&& final(self).stack() == stack
                &&& match (r, outcome) {
                    (Ok(e), Ok(f)) => e == f,
                    (Err(e), Err(f)) => e.reason() == f.text() && e.line() is None,
                    _ => false,
                }
            }),
    {
        let right = self.stack_pop()?;
        let left = self.stack_pop()?;
        match (left, right) {
            (Value::Number(left), Value::Number(right)) => Ok(Effect::Arithmetic(op, left, right)),
            _ => Err(RuntimeError::new("Operands must be numbers.")),
        }
    }

    fn try_run_comparison_op(&mut self, op: CompareOp) -> (r: Result<Effect, RuntimeError>)
        requires
            old(self).wf(),
        ensures
            final(self).wf(),
            final(self).chunk() == old(self).chunk(),
            final(self).offset() == old(self).offset(),
            final(self).current() == old(self).current(),
            ({
                let (stack, outcome) = comparison(old(self).stack(), op);
                &&& final(self).stack() == stack
                &&& match (r, outcome) {
                    (Ok(e), Ok(f)) => e == f,
                    (Err(e), Err(f)) => e.reason() == f.text() && e.line() is None,
                    _ => false,
                }
            }),
    {
        let right = self.stack_pop()?;
        let left = self.stack_pop()?;
        match (left, right) {
            (Value::Number(left), Value::Number(right)) => Ok(Effect::Comparison(op, left, right)),
            _ => Err(RuntimeError::new("Operands must be numbers.")),
        }
    }

    fn try_run_equal_op(&mut self) -> (r: Result<Effect, RuntimeError>)
        requires
            old(self).wf(),
        ensures
            final(self).wf(),
            final(self).chunk() == old(self).chunk(),
            final(self).offset() == old(self).offset(),
            final(self).current() == old(self).current(),
            ({
                let (stack, outcome) = execute(old(self).stack(), Instruction::Equal);
                &&& final(self).stack() == stack
                &&& match (r, outcome) {
                    (Ok(e), Ok(f)) => e == f,
                    (Err(e), Err(f)) => e.reason() == f.text() && e.line() is None,
                    _ => false,
                }
            }),
    {
        proof {
            self.stack.lemma_capacity();
        }
        let right = self.stack_pop()?;
        let left = self.stack_pop()?;
        match (left, right) {
            (Value::Number(left), Value::Number(right)) => Ok(Effect::Comparison(CompareOp::Equal, left, right)),
            _ => {
                self.stack_push(Value::Boolean(left == right))?;
                Ok(Effect::Nothing)
            },
        }
    }

    fn try_negate(&mut self) -> (r: Result<Effect, RuntimeError>)
        requires
            old(self).wf(),
        ensures
            final(self).wf(),
            final(self).chunk() == old(self).chunk(),
            final(self).offset() == old(self).offset(),
            final(self).current() == old(self).current(),
            ({
                let (stack, outcome) = execute(old(self).stack(), Instruction::Negate);
                &&& final(self).stack() == stack
                &&& match (r, outcome) {
                    (Ok(e), Ok(f)) => e == f,
                    (Err(e), Err(f)) => e.reason() == f.text() && e.line() is None,
                    _ => false,
                }
            }),
    {
        let value = match self.stack.top() {
            Some(value) => *value,
            None => {
                return Err(RuntimeError::from_stack_error(StackError::Underflow));
            },
        };
        match value {
            Value::Number(number) => {
                let _ = self.stack.pop();
                Ok(Effect::Negate(number))
            },
            _ => Err(RuntimeError::new("Operand must be a number.")),
        }
    }

    /// Runs one instruction (see `execute`). The error carries no line yet.
    pub fn run_instruction(&mut self, instruction: Instruction) -> (r: Result<Effect, RuntimeError>)
        requires
            old(self).wf(),
        ensures
            final(self).wf(),
            final(self).chunk() == old(self).chunk(),
            final(self).offset() == old(self).offset(),
            final(self).current() == old(self).current(),
            ({
                let (stack, outcome) = execute(old(self).stack(), instruction);
                &&& final(self).stack() == stack
                &&& match (r, outcome) {
                    (Ok(e), Ok(f)) => e == f,
                    (Err(e), Err(f)) => e.reason() == f.text() && e.line() is None,
                    _ => false,
                }
            }),
    {
        match instruction {
            Instruction::Return => {
                let value = self.stack_pop()?;
                Ok(Effect::Print(value))
            },
            Instruction::Equal => self.try_run_equal_op(),
            Instruction::Greater => self.try_run_comparison_op(CompareOp::Greater),
            Instruction::Less => self.try_run_comparison_op(CompareOp::Less),
            Instruction::Add => self.try_run_arithmetic_op(ArithOp::Add),
            Instruction::Subtract => self.try_run_arithmetic_op(ArithOp::Subtract),
            Instruction::Multiply => self.try_run_arithmetic_op(ArithOp::Multiply),
            Instruction::Divide => self.try_run_arithmetic_op(ArithOp::Divide),
            Instruction::Constant(value) => {
                self.stack_push(value)?;
                Ok(Effect::Nothing)
            },
            Instruction::Not => {
                match self.stack.top() {
                    Some(value) => {
                        let not = Value::Boolean(!value.is_truthy());
                        *value = not;
                        Ok(Effect::Nothing)
                    },
                    None => Err(RuntimeError::from_stack_error(StackError::Underflow)),
                }
            },
            Instruction::Negate => self.try_negate(),
            Instruction::Unknown(byte) => {
                let mut reason = String::new();
                push_str(&mut reason, "Unknown opcode ");
                push_decimal(&mut reason, byte as usize);
                Err(RuntimeError::from_reason(reason))
            },
        }
    }

    /// Reads and runs the next instruction; `None` when none is left. A
    /// failed instruction's error carries the instruction's source line.
    pub fn step(&mut self) -> (r: Option<Result<Effect, RuntimeError>>)
        requires
            old(self).wf(),
        ensures
            final(self).wf(),
            final(self).chunk() == old(self).chunk(),
            old(self).offset() >= old(self).chunk().code.len() ==> r is None && final(self).stack() == old(
                self,
            ).stack() && final(self).offset() == old(self).offset(),
            old(self).offset() < old(self).chunk().code.len() ==> ({
                let (instruction, next) = decode_at(old(self).chunk().code, old(self).chunk().constants, old(self).offset());
                let (stack, outcome) = execute(old(self).stack(), instruction);
                &&& final(self).offset() == next
                &&& final(self).current() == old(self).offset()
                &&& final(self).stack() == stack
                &&& match (r, outcome) {
                    (Some(Ok(e)), Ok(f)) => e == f,
                    (Some(Err(e)), Err(f)) => e.reason() == f.text() && e.line() == Some(
                        old(self).chunk().lines[old(self).offset()],
                    ),
                    _ => false,
                }
            }),
    {
        if !self.has_next() {
            return None;
        }
        let instruction = self.next_instruction();
        match self.run_instruction(instruction) {
            Ok(effect) => Some(Ok(effect)),
            Err(mut err) => {
                let line = self.line();
                err.with_line(line);
                Some(Err(err))
            },
        }
    }
}

} // verus!

verus! {

/// A comparison hands the host its two number operands in stack order: the
/// left one is the value below the top, the right one the top; both leave
/// the stack.
pub proof fn law_comparison_operands(stack: Seq<Value>, a: u64, b: u64)
    requires
        stack.len() >= 2,
        stack[stack.len() - 2] == Value::Number(a),
        stack[stack.len() - 1] == Value::Number(b),
    ensures
        execute(stack, Instruction::Greater) == (
            stack.take(stack.len() - 2),
            Ok::<Effect, Fault>(Effect::Comparison(CompareOp::Greater, a, b)),
        ),
        execute(stack, Instruction::Less) == (
            stack.take(stack.len() - 2),
            Ok::<Effect, Fault>(Effect::Comparison(CompareOp::Less, a, b)),
        ),
        execute(stack, Instruction::Equal) == (
            stack.take(stack.len() - 2),
            Ok::<Effect, Fault>(Effect::Comparison(CompareOp::Equal, a, b)),
        ),
{
    assert(stack.drop_last().drop_last() =~= stack.take(stack.len() - 2));
}

/// An arithmetic operation hands the host its two number operands in stack
/// order: the left one is the value below the top, the right one the top;
/// both leave the stack.
pub proof fn law_arithmetic_operands(stack: Seq<Value>, a: u64, b: u64)
    requires
        stack.len() >= 2,
        stack[stack.len() - 2] == Value::Number(a),
        stack[stack.len() - 1] == Value::Number(b),
    ensures
        execute(stack, Instruction::Add) == (
            stack.take(stack.len() - 2),
            Ok::<Effect, Fault>(Effect::Arithmetic(ArithOp::Add, a, b)),
        ),
        execute(stack, Instruction::Subtract) == (
            stack.take(stack.len() - 2),
            Ok::<Effect, Fault>(Effect::Arithmetic(ArithOp::Subtract, a, b)),
        ),
        execute(stack, Instruction::Multiply) == (
            stack.take(stack.len() - 2),
            Ok::<Effect, Fault>(Effect::Arithmetic(ArithOp::Multiply, a, b)),
        ),
        execute(stack, Instruction::Divide) == (
            stack.take(stack.len() - 2),
            Ok::<Effect, Fault>(Effect::Arithmetic(ArithOp::Divide, a, b)),
        ),
{
    assert(stack.drop_last().drop_last() =~= stack.take(stack.len() - 2));
}

/// `Not` replaces the top value by its negated truth: `true` for `nil` and
/// `false`, `false` for `true` and for every number; the rest of the stack
/// stays.
pub proof fn law_not(stack: Seq<Value>)
    requires
        stack.len() > 0,
    ensures
        execute(stack, Instruction::Not) == (
            stack.drop_last().push(
                Value::Boolean(
                    match stack.last() {
                        Value::Nil => true,
                        Value::Boolean(b) => !b,
                        Value::Number(_) => false,
                    },
                ),
            ),
            Ok::<Effect, Fault>(Effect::Nothing),
        ),
{
    assert(stack.update(stack.len() - 1, Value::Boolean(!stack.last().truthy())) =~= stack.drop_last().push(
        Value::Boolean(
            match stack.last() {
                Value::Nil => true,
                Value::Boolean(b) => !b,
                Value::Number(_) => false,
            },
        ),
    ));
}

/// `Equal` on two operands that are not both numbers compares them by
/// value: it puts `true` exactly where they are the same value (values of
/// different kinds, such as a number and a boolean or `nil` and `false`,
/// differ), in place of both.
pub proof fn law_equal_by_value(stack: Seq<Value>, left: Value, right: Value)
    requires
        stack.len() >= 2,
        stack[stack.len() - 2] == left,
        stack[stack.len() - 1] == right,
        !(left is Number && right is Number),
    ensures
        execute(stack, Instruction::Equal) == (
            stack.take(stack.len() - 2).push(Value::Boolean(left == right)),
            Ok::<Effect, Fault>(Effect::Nothing),
        ),
        (left is Nil) != (right is Nil) || (left is Boolean) != (right is Boolean) ==> execute(
            stack,
            Instruction::Equal,
        ).0.last() == Value::Boolean(false),
{
    assert(stack.drop_last().drop_last() =~= stack.take(stack.len() - 2));
}

/// `Constant` puts its value on top of a stack that has room for it (fewer
/// than `STACK_MAX` values) and fails with an overflow, the stack unchanged,
/// on a full one.
pub proof fn law_constant(stack: Seq<Value>, v: Value)
    ensures
        stack.len() < STACK_MAX ==> execute(stack, Instruction::Constant(v)) == (
            stack.push(v),
            Ok::<Effect, Fault>(Effect::Nothing),
        ),
        stack.len() >= STACK_MAX ==> execute(stack, Instruction::Constant(v)) == (
            stack,
            Err::<Effect, Fault>(Fault::Stack(StackError::Overflow)),
        ),
{
}

/// `Return` takes the top value off and hands it out to be printed; on an
/// empty stack it fails with an underflow.
pub proof fn law_return(stack: Seq<Value>)
    ensures
        stack.len() > 0 ==> execute(stack, Instruction::Return) == (
            stack.take(stack.len() - 1),
            Ok::<Effect, Fault>(Effect::Print(stack[stack.len() - 1])),
        ),
        stack.len() == 0 ==> execute(stack, Instruction::Return).1 == Err::<Effect, Fault>(
            Fault::Stack(StackError::Underflow),
        ),
{
    if stack.len() > 0 {
        assert(stack.drop_last() =~= stack.take(stack.len() - 1));
    }
}

/// `Negate` takes a number off the top and asks the host for its negation;
/// on any other top value it fails, the stack unchanged; on an empty stack
/// it fails with an underflow.
pub proof fn law_negate(stack: Seq<Value>)
    ensures
        stack.len() > 0 && stack[stack.len() - 1] is Number ==> execute(stack, Instruction::Negate) == (
            stack.take(stack.len() - 1),
            Ok::<Effect, Fault>(Effect::Negate(stack[stack.len() - 1]->Number_0)),
        ),
        stack.len() > 0 && !(stack[stack.len() - 1] is Number) ==> execute(stack, Instruction::Negate) == (
            stack,
            Err::<Effect, Fault>(Fault::OperandMustBeNumber),
        ),
        stack.len() == 0 ==> execute(stack, Instruction::Negate).1 == Err::<Effect, Fault>(
            Fault::Stack(StackError::Underflow),
        ),
{
    if stack.len() > 0 {
        assert(stack.drop_last() =~= stack.take(stack.len() - 1));
    }
}

/// An arithmetic operation or an ordering comparison on two values that are
/// not both numbers fails, both values taken off; with fewer than two values
/// it fails with an underflow.
pub proof fn law_operands_must_be_numbers(stack: Seq<Value>, i: Instruction)
    requires
        i is Add || i is Subtract || i is Multiply || i is Divide || i is Greater || i is Less,
    ensures
        stack.len() >= 2 && !(stack[stack.len() - 2] is Number && stack[stack.len() - 1] is Number) ==> execute(
            stack,
            i,
        ) == (stack.take(stack.len() - 2), Err::<Effect, Fault>(Fault::OperandsMustBeNumbers)),
        stack.len() < 2 ==> execute(stack, i).1 == Err::<Effect, Fault>(Fault::Stack(StackError::Underflow)),
{
    if stack.len() >= 2 {
        assert(stack.drop_last().drop_last() =~= stack.take(stack.len() - 2));
    }
}

/// A byte that stands for no operation fails as an unknown opcode, the
/// stack unchanged.
pub proof fn law_unknown(stack: Seq<Value>, b: u8)
    ensures
        execute(stack, Instruction::Unknown(b)) == (stack, Err::<Effect, Fault>(Fault::UnknownOpcode(b))),
{
}

} // verus!
