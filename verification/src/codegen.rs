use vstd::prelude::*;

use crate::chunk::{Instruction, OpCode};
use crate::compiler::number_texts_from;
use crate::errors::StackError;
use crate::grammar::{
    advance, binary, consume, emit, expression, grouping, infix, infix_loop, initial_state, lemma_advance_measure,
    measure, measure_prev, number_value, parse_precedence, parse_source, prefix, report, unary, Emit, Message,
    PState, Precedence,
};
use crate::program::{instruction_of, instructions_of};
use crate::scanner::{lemma_scan_step_forward, lemma_scan_step_kind, scan_step, Token, TokenKind};
use crate::value::Value;
use crate::vm::{execute, run, Effect, Fault, STACK_MAX};

verus! {

// ---------------------------------------------------------------------------
// The height of the value stack over a run of instructions.
// ---------------------------------------------------------------------------

/// How many values an instruction takes off the stack.
pub open spec fn operands_taken(i: Instruction) -> int {
    match i {
        Instruction::Return | Instruction::Negate | Instruction::Not => 1,
        Instruction::Add
        | Instruction::Subtract
        | Instruction::Multiply
        | Instruction::Divide
        | Instruction::Equal
        | Instruction::Greater
        | Instruction::Less => 2,
        Instruction::Constant(_) | Instruction::Unknown(_) => 0,
    }
}

/// By how much an instruction that succeeds changes the height of the
/// stack, the host's result included where it hands one back.
pub open spec fn height_change(i: Instruction) -> int {
    match i {
        Instruction::Constant(_) => 1,
        Instruction::Negate | Instruction::Not | Instruction::Unknown(_) => 0,
        _ => -1,
    }
}

/// How many values the host puts on the stack after an effect: the result
/// of a number operation.
pub open spec fn handed_back(e: Effect) -> int {
    match e {
        Effect::Arithmetic(..) | Effect::Comparison(..) | Effect::Negate(_) => 1,
        Effect::Nothing | Effect::Print(_) => 0,
    }
}

/// The change of height over a run of instructions.
pub open spec fn net_height(is: Seq<Instruction>) -> int
    decreases is.len(),
{
    if is.len() == 0 {
        0
    } else {
        net_height(is.drop_last()) + height_change(is.last())
    }
}

/// The least height from which a run of instructions never finds fewer
/// values on the stack than an instruction takes.
pub open spec fn least_height(is: Seq<Instruction>) -> int
    decreases is.len(),
{
    if is.len() == 0 {
        0
    } else {
        let before = is.drop_last();
        let need = operands_taken(is.last()) - net_height(before);
        if need > least_height(before) {
            need
        } else {
            least_height(before)
        }
    }
}

/// An instruction finds on a stack that holds at least the values it takes
/// no underflow; where it succeeds, the stack it leaves, with the host's
/// result, is `height_change` higher.
pub proof fn law_enough_operands(stack: Seq<Value>, i: Instruction)
    requires
        stack.len() >= operands_taken(i),
    ensures
        execute(stack, i).1 != Err::<Effect, Fault>(Fault::Stack(StackError::Underflow)),
        execute(stack, i).1 matches Ok(e) ==> execute(stack, i).0.len() + handed_back(e) == stack.len()
            + height_change(i),
{
}

/// Started from a height of at least `least_height`, every instruction of
/// the run finds the values it takes: before instruction `k` the height is
/// the start plus the change over the instructions before it.
pub proof fn law_least_height_suffices(is: Seq<Instruction>, start: int, k: int)
    requires
        start >= least_height(is),
        0 <= k < is.len(),
    ensures
        start + net_height(is.take(k)) >= operands_taken(is[k]),
    decreases is.len(),
{
    let before = is.drop_last();
    if k == is.len() - 1 {
        assert(is.take(k) =~= before);
    } else {
        assert(before.take(k) =~= is.take(k));
        law_least_height_suffices(before, start, k);
    }
}

/// The code of a source that compiles takes from the stack only values that
/// it has put there, and its return leaves the stack as it found it; it holds
/// only number loads, arithmetic operations, negations and returns.
pub proof fn law_compiled_code_keeps_stack(s: Seq<char>, numbers: Seq<u64>)
    requires
        !parse_source(s, numbers).had_errors,
    ensures
        least_height(instructions_of(parse_source(s, numbers).emitted)) == 0,
        net_height(instructions_of(parse_source(s, numbers).emitted)) == 0,
        only_compiled(instructions_of(parse_source(s, numbers).emitted)),
{
    let st0 = advance(s, initial_state(s));
    lemma_advance_measure(s, initial_state(s));
    let st1 = expression(s, numbers, st0);
    lemma_expression(s, numbers, st0);
    let st2 = consume(s, st1, TokenKind::Eof, Message::ExpectEnd);
    lemma_consume(s, st1, TokenKind::Eof, Message::ExpectEnd);
    let fin = parse_source(s, numbers);
    assert(fin == emit(st2, Emit::Op(OpCode::Return)));
    let body = code_between(st0, st1);
    assert(st1.emitted.subrange(0, 0) =~= Seq::<(Emit, usize)>::empty());
    assert(st1.emitted.subrange(0, st1.emitted.len() as int) =~= st1.emitted);
    assert(st2.emitted == st1.emitted) by {
        assert(code_between(st1, st2).len() == 0);
        assert(st2.emitted.subrange(0, st1.emitted.len() as int) == st1.emitted);
        assert(st2.emitted.subrange(0, st2.emitted.len() as int) =~= st2.emitted);
    }
    lemma_instructions_push(st2.emitted, (Emit::Op(OpCode::Return), st2.previous.span.line));
    assert(instructions_of(fin.emitted) =~= body.push(Instruction::Return));
    lemma_heights_append(body, seq![Instruction::Return]);
    lemma_single(Instruction::Return);
    assert(body + seq![Instruction::Return] =~= body.push(Instruction::Return));
}

/// Run with a host that answers every arithmetic operation and negation with
/// a number, the code of a source that compiles meets no fault but a stack
/// overflow: no instruction finds too few values, or a value that is not a
/// number.
pub proof fn law_compiled_code_meets_only_overflow(
    s: Seq<char>,
    numbers: Seq<u64>,
    answer: spec_fn(Effect) -> Value,
)
    requires
        !parse_source(s, numbers).had_errors,
        forall|e: Effect| (e is Arithmetic || e is Negate) ==> (#[trigger] answer(e)) is Number,
    ensures
        run(Seq::empty(), instructions_of(parse_source(s, numbers).emitted), answer) matches Some(f) ==> f
            == Fault::Stack(StackError::Overflow),
{
    law_compiled_code_keeps_stack(s, numbers);
    lemma_run_only_overflows(Seq::empty(), instructions_of(parse_source(s, numbers).emitted), answer);
}

/// Every value on the stack is a number.
pub open spec fn all_numbers(stack: Seq<Value>) -> bool {
    forall|k: int| 0 <= k < stack.len() ==> (#[trigger] stack[k]) is Number
}

proof fn lemma_run_only_overflows(stack: Seq<Value>, is: Seq<Instruction>, answer: spec_fn(Effect) -> Value)
    requires
        all_numbers(stack),
        only_compiled(is),
        stack.len() >= least_height(is),
        forall|e: Effect| (e is Arithmetic || e is Negate) ==> (#[trigger] answer(e)) is Number,
    ensures
        run(stack, is, answer) matches Some(f) ==> f == Fault::Stack(StackError::Overflow),
    decreases is.len(),
{
    if is.len() > 0 {
        let i = is[0];
        let rest = is.drop_first();
        assert(seq![i] + rest =~= is);
        lemma_heights_append(seq![i], rest);
        lemma_single(i);
        assert(compiled_instruction(is[0]));
        assert(only_compiled(rest)) by {
            assert forall|k: int| 0 <= k < rest.len() implies compiled_instruction(#[trigger] rest[k]) by {
                assert(rest[k] == is[k + 1]);
            }
        }
        law_enough_operands(stack, i);
        let (after, outcome) = execute(stack, i);
        if stack.len() >= 2 {
            assert(stack[stack.len() - 2] is Number);
        }
        if stack.len() >= 1 {
            assert(stack.last() is Number);
        }
        assert(all_numbers(after)) by {
            assert forall|k: int| 0 <= k < after.len() implies (#[trigger] after[k]) is Number by {
                if k < stack.len() - 2 {
                    assert(after[k] == stack[k]);
                } else if k < stack.len() {
                    assert(after[k] == stack[k] || after[k] == i->Constant_0);
                }
            }
        }
        match outcome {
            Ok(e) => match e {
                Effect::Arithmetic(..) | Effect::Comparison(..) | Effect::Negate(_) => {
                    if after.len() < STACK_MAX {
                        let next = after.push(answer(e));
                        assert(all_numbers(next)) by {
                            assert forall|k: int| 0 <= k < next.len() implies (#[trigger] next[k]) is Number by {
                                if k < after.len() {
                                    assert(next[k] == after[k]);
                                }
                            }
                        }
                        lemma_run_only_overflows(next, rest, answer);
                    }
                },
                _ => {
                    lemma_run_only_overflows(after, rest, answer);
                },
            },
            Err(_) => {},
        }
    }
}

// ---------------------------------------------------------------------------
// What each step of the parse writes.
// ---------------------------------------------------------------------------

/// The instructions written between two states of a parse.
pub open spec fn code_between(st: PState, res: PState) -> Seq<Instruction> {
    instructions_of(res.emitted.subrange(st.emitted.len() as int, res.emitted.len() as int))
}

/// A later state of a parse: what was written stays, and so does an error.
pub open spec fn grows(st: PState, res: PState) -> bool {
    &&& st.emitted.len() <= res.emitted.len()
    &&& res.emitted.subrange(0, st.emitted.len() as int) == st.emitted
    &&& (st.had_errors ==> res.had_errors)
}

/// An instruction that compiled code holds: the loading of a number, an
/// arithmetic operation, a negation or a return.
pub open spec fn compiled_instruction(i: Instruction) -> bool {
    match i {
        Instruction::Constant(v) => v is Number,
        Instruction::Add
        | Instruction::Subtract
        | Instruction::Multiply
        | Instruction::Divide
        | Instruction::Negate
        | Instruction::Return => true,
        _ => false,
    }
}

/// Every instruction of the run is one that compiled code holds.
pub open spec fn only_compiled(is: Seq<Instruction>) -> bool {
    forall|k: int| 0 <= k < is.len() ==> compiled_instruction(#[trigger] is[k])
}

/// Code that loads one value: it needs nothing on the stack and leaves one more.
pub open spec fn operand_code(is: Seq<Instruction>) -> bool {
    net_height(is) == 1 && least_height(is) <= 0 && only_compiled(is)
}

/// Code that combines one value below it with operands of its own into one:
/// it needs one value on the stack and leaves the height as it was.
pub open spec fn operator_code(is: Seq<Instruction>) -> bool {
    net_height(is) == 0 && least_height(is) <= 1 && only_compiled(is)
}

proof fn lemma_least_height_nonnegative(is: Seq<Instruction>)
    ensures
        least_height(is) >= 0,
    decreases is.len(),
{
    if is.len() > 0 {
        lemma_least_height_nonnegative(is.drop_last());
    }
}

proof fn lemma_heights_append(a: Seq<Instruction>, b: Seq<Instruction>)
    ensures
        net_height(a + b) == net_height(a) + net_height(b),
        least_height(a + b) == if least_height(b) - net_height(a) > least_height(a) {
            least_height(b) - net_height(a)
        } else {
            least_height(a)
        },
        only_compiled(a) && only_compiled(b) ==> only_compiled(a + b),
    decreases b.len(),
{
    if b.len() == 0 {
        assert(a + b =~= a);
    } else {
        assert((a + b).drop_last() =~= a + b.drop_last());
        assert((a + b).last() == b.last());
        lemma_heights_append(a, b.drop_last());
        lemma_least_height_nonnegative(b.drop_last());
    }
    if only_compiled(a) && only_compiled(b) {
        assert forall|k: int| 0 <= k < (a + b).len() implies compiled_instruction(#[trigger] (a + b)[k]) by {
            if k >= a.len() {
                assert((a + b)[k] == b[k - a.len()]);
            }
        }
    }
}

proof fn lemma_single(i: Instruction)
    ensures
        net_height(seq![i]) == height_change(i),
        least_height(seq![i]) == if operands_taken(i) > 0 {
            operands_taken(i)
        } else {
            0
        },
        only_compiled(seq![i]) == compiled_instruction(i),
{
    assert(compiled_instruction(seq![i][0]) == compiled_instruction(i));
    assert(seq![i].drop_last() =~= Seq::<Instruction>::empty());
    assert(net_height(Seq::<Instruction>::empty()) == 0);
    assert(least_height(Seq::<Instruction>::empty()) == 0);
}

pub(crate) proof fn lemma_instructions_push(es: Seq<(Emit, usize)>, e: (Emit, usize))
    ensures
        instructions_of(es.push(e)) =~= instructions_of(es).push(instruction_of(e.0)),
{
}

proof fn lemma_instructions_append(a: Seq<(Emit, usize)>, b: Seq<(Emit, usize)>)
    ensures
        instructions_of(a + b) =~= instructions_of(a) + instructions_of(b),
{
}

pub(crate) proof fn lemma_grows_refl(st: PState)
    ensures
        grows(st, st),
        code_between(st, st) =~= Seq::<Instruction>::empty(),
{
    assert(st.emitted.subrange(0, st.emitted.len() as int) =~= st.emitted);
}

pub(crate) proof fn lemma_grows_compose(a: PState, b: PState, c: PState)
    requires
        grows(a, b),
        grows(b, c),
    ensures
        grows(a, c),
        code_between(a, c) =~= code_between(a, b) + code_between(b, c),
{
    let (la, lb, lc) = (a.emitted.len() as int, b.emitted.len() as int, c.emitted.len() as int);
    assert(c.emitted.subrange(0, la) =~= c.emitted.subrange(0, lb).subrange(0, la));
    assert(c.emitted.subrange(la, lc) =~= c.emitted.subrange(la, lb) + c.emitted.subrange(lb, lc));
    assert(c.emitted.subrange(la, lb) =~= b.emitted.subrange(la, lb)) by {
        assert(c.emitted.subrange(la, lb) =~= c.emitted.subrange(0, lb).subrange(la, lb));
    }
    lemma_instructions_append(c.emitted.subrange(la, lb), c.emitted.subrange(lb, lc));
}

pub(crate) proof fn lemma_advance_grows(s: Seq<char>, st: PState)
    ensures
        grows(st, advance(s, st)),
        code_between(st, advance(s, st)) =~= Seq::<Instruction>::empty(),
{
    lemma_advance_measure(s, st);
    lemma_grows_refl(st);
}

pub(crate) proof fn lemma_report_grows(s: Seq<char>, st: PState, token: Token, message: Message)
    ensures
        grows(st, report(s, st, token, message)),
        report(s, st, token, message).had_errors,
{
    lemma_grows_refl(st);
}

pub(crate) proof fn lemma_emit_grows(st: PState, e: Emit)
    ensures
        grows(st, emit(st, e)),
        emit(st, e).had_errors == st.had_errors,
        code_between(st, emit(st, e)) =~= seq![instruction_of(e)],
{
    let res = emit(st, e);
    assert(res.emitted.subrange(0, st.emitted.len() as int) =~= st.emitted);
    assert(res.emitted.subrange(st.emitted.len() as int, res.emitted.len() as int) =~= seq![
        (e, st.previous.span.line),
    ]);
}

pub(crate) proof fn lemma_consume(s: Seq<char>, st: PState, kind: TokenKind, message: Message)
    ensures
        grows(st, consume(s, st, kind, message)),
        code_between(st, consume(s, st, kind, message)) =~= Seq::<Instruction>::empty(),
{
    lemma_advance_grows(s, st);
    lemma_grows_refl(st);
}

pub(crate) proof fn lemma_expression(s: Seq<char>, numbers: Seq<u64>, st: PState)
    ensures
        grows(st, expression(s, numbers, st)),
        !expression(s, numbers, st).had_errors ==> operand_code(code_between(st, expression(s, numbers, st))),
    decreases measure(s, st), 8nat,
{
    lemma_parse_precedence(s, numbers, st, Precedence::Assignment);
}

pub(crate) proof fn lemma_parse_precedence(s: Seq<char>, numbers: Seq<u64>, st: PState, precedence: Precedence)
    ensures
        grows(st, parse_precedence(s, numbers, st, precedence)),
        !parse_precedence(s, numbers, st, precedence).had_errors ==> operand_code(
            code_between(st, parse_precedence(s, numbers, st, precedence)),
        ),
    decreases measure(s, st), 7nat,
{
    let st1 = advance(s, st);
    lemma_advance_measure(s, st);
    lemma_advance_grows(s, st);
    let st2 = prefix(s, numbers, st1);
    lemma_prefix(s, numbers, st1);
    lemma_grows_compose(st, st1, st2);
    if measure(s, st2) <= measure(s, st) {
        let st3 = infix_loop(s, numbers, st2, precedence);
        lemma_infix_loop(s, numbers, st2, precedence);
        lemma_grows_compose(st, st2, st3);
        lemma_heights_append(code_between(st, st2), code_between(st2, st3));
    }
}

pub(crate) proof fn lemma_infix_loop(s: Seq<char>, numbers: Seq<u64>, st: PState, precedence: Precedence)
    ensures
        grows(st, infix_loop(s, numbers, st, precedence)),
        !infix_loop(s, numbers, st, precedence).had_errors ==> operator_code(
            code_between(st, infix_loop(s, numbers, st, precedence)),
        ),
    decreases measure(s, st), 6nat,
{
    lemma_grows_refl(st);
    if precedence.rank() <= Precedence::of(st.current.kind).rank() {
        let st1 = advance(s, st);
        lemma_advance_measure(s, st);
        lemma_advance_grows(s, st);
        let st2 = infix(s, numbers, st1);
        lemma_infix(s, numbers, st1);
        lemma_grows_compose(st, st1, st2);
        if measure(s, st2) < measure(s, st) {
            let st3 = infix_loop(s, numbers, st2, precedence);
            lemma_infix_loop(s, numbers, st2, precedence);
            lemma_grows_compose(st, st2, st3);
            lemma_heights_append(code_between(st, st2), code_between(st2, st3));
        }
    }
}

pub(crate) proof fn lemma_prefix(s: Seq<char>, numbers: Seq<u64>, st: PState)
    ensures
        grows(st, prefix(s, numbers, st)),
        !prefix(s, numbers, st).had_errors ==> operand_code(code_between(st, prefix(s, numbers, st))),
    decreases measure_prev(s, st), 5nat,
{
    match st.previous.kind {
        TokenKind::LeftParen => lemma_grouping(s, numbers, st),
        TokenKind::Minus => lemma_unary(s, numbers, st),
        TokenKind::Number => {
            let e = Emit::Load(Value::Number(crate::grammar::number_value(numbers, st.previous_number)));
            lemma_emit_grows(st, e);
            lemma_single(instruction_of(e));
        },
        _ => lemma_report_grows(s, st, st.previous, Message::ExpectExpression),
    }
}

pub(crate) proof fn lemma_infix(s: Seq<char>, numbers: Seq<u64>, st: PState)
    ensures
        grows(st, infix(s, numbers, st)),
        !infix(s, numbers, st).had_errors ==> operator_code(code_between(st, infix(s, numbers, st))),
    decreases measure_prev(s, st), 5nat,
{
    match st.previous.kind {
        TokenKind::Minus | TokenKind::Plus | TokenKind::Star | TokenKind::Slash => lemma_binary(s, numbers, st),
        _ => lemma_report_grows(s, st, st.previous, Message::ExpectExpression),
    }
}

proof fn lemma_grouping(s: Seq<char>, numbers: Seq<u64>, st: PState)
    ensures
        grows(st, grouping(s, numbers, st)),
        !grouping(s, numbers, st).had_errors ==> operand_code(code_between(st, grouping(s, numbers, st))),
    decreases measure(s, st), 9nat,
{
    let st1 = expression(s, numbers, st);
    lemma_expression(s, numbers, st);
    let st2 = consume(s, st1, TokenKind::RightParen, Message::ExpectRightParen);
    lemma_consume(s, st1, TokenKind::RightParen, Message::ExpectRightParen);
    lemma_grows_compose(st, st1, st2);
    assert(code_between(st, st1) + Seq::<Instruction>::empty() =~= code_between(st, st1));
}

proof fn lemma_unary(s: Seq<char>, numbers: Seq<u64>, st: PState)
    ensures
        grows(st, unary(s, numbers, st)),
        !unary(s, numbers, st).had_errors ==> operand_code(code_between(st, unary(s, numbers, st))),
    decreases measure(s, st), 9nat,
{
    let st1 = parse_precedence(s, numbers, st, Precedence::Unary);
    lemma_parse_precedence(s, numbers, st, Precedence::Unary);
    let e = Emit::Op(OpCode::Negate);
    lemma_emit_grows(st1, e);
    lemma_grows_compose(st, st1, emit(st1, e));
    lemma_heights_append(code_between(st, st1), seq![instruction_of(e)]);
    lemma_single(instruction_of(e));
}

proof fn lemma_binary(s: Seq<char>, numbers: Seq<u64>, st: PState)
    ensures
        grows(st, binary(s, numbers, st)),
        !binary(s, numbers, st).had_errors ==> operator_code(code_between(st, binary(s, numbers, st))),
    decreases measure(s, st), 9nat,
{
    let kind = st.previous.kind;
    let st1 = parse_precedence(s, numbers, st, Precedence::of(kind).higher());
    lemma_parse_precedence(s, numbers, st, Precedence::of(kind).higher());
    let e = Emit::Op(crate::grammar::binary_op(kind));
    lemma_emit_grows(st1, e);
    lemma_grows_compose(st, st1, emit(st1, e));
    lemma_heights_append(code_between(st, st1), seq![instruction_of(e)]);
    lemma_single(instruction_of(e));
}

// ---------------------------------------------------------------------------
// The constants that compiled code loads.
// ---------------------------------------------------------------------------

/// The values that the `Constant` instructions of a run load, in order.
pub open spec fn loads(is: Seq<Instruction>) -> Seq<Value>
    decreases is.len(),
{
    if is.len() == 0 {
        Seq::empty()
    } else {
        match is.last() {
            Instruction::Constant(v) => loads(is.drop_last()).push(v),
            _ => loads(is.drop_last()),
        }
    }
}

/// The values of number literals `from` up to `to` (not included), each
/// taken from `numbers` by its place.
pub open spec fn literal_values(numbers: Seq<u64>, from: int, to: int) -> Seq<Value> {
    Seq::new((to - from) as nat, |j: int| Value::Number(number_value(numbers, from + j)))
}

/// Literal `k` of the source loads `numbers[k]`: the constants that the code
/// of a source that compiles loads are, in order, the values of its number
/// literals (those that `number_literals` lists), each taken from `numbers`
/// by its place.
pub proof fn law_literals_load_their_numbers(s: Seq<char>, numbers: Seq<u64>)
    requires
        !parse_source(s, numbers).had_errors,
    ensures
        loads(instructions_of(parse_source(s, numbers).emitted)) == literal_values(
            numbers,
            0,
            number_texts_from(s, 0).len() as int,
        ),
{
    let init = initial_state(s);
    assert(counted(s, init));
    let st0 = advance(s, init);
    lemma_advance_measure(s, init);
    lemma_advance_counts(s, init);
    let st1 = expression(s, numbers, st0);
    lemma_expression(s, numbers, st0);
    lemma_expression_loads(s, numbers, st0);
    let st2 = consume(s, st1, TokenKind::Eof, Message::ExpectEnd);
    lemma_consume(s, st1, TokenKind::Eof, Message::ExpectEnd);
    let fin = parse_source(s, numbers);
    assert(fin == emit(st2, Emit::Op(OpCode::Return)));
    assert(st1.current.kind == TokenKind::Eof);
    assert(st1.emitted.subrange(0, 0) =~= Seq::<(Emit, usize)>::empty());
    assert(st1.emitted.subrange(0, st1.emitted.len() as int) =~= st1.emitted);
    assert(st2.emitted == st1.emitted) by {
        assert(code_between(st1, st2).len() == 0);
        assert(st2.emitted.subrange(0, st1.emitted.len() as int) == st1.emitted);
        assert(st2.emitted.subrange(0, st2.emitted.len() as int) =~= st2.emitted);
    }
    lemma_instructions_push(st2.emitted, (Emit::Op(OpCode::Return), st2.previous.span.line));
    assert(instructions_of(fin.emitted) =~= code_between(st0, st1).push(Instruction::Return));
    assert(loads(code_between(st0, st1).push(Instruction::Return)) == loads(code_between(st0, st1))) by {
        assert(code_between(st0, st1).push(Instruction::Return).drop_last() =~= code_between(st0, st1));
    }
}

/// The place, among the number literals, of the first literal at or after
/// the current token.
pub open spec fn next_literal(st: PState) -> int {
    if st.current.kind == TokenKind::Number {
        st.current_number
    } else {
        st.numbers_seen
    }
}

/// How many number literals the scanner hands out from `pos` on.
pub open spec fn literals_from(s: Seq<char>, pos: int) -> int {
    number_texts_from(s, pos).len() as int
}

/// The count of number literals in a state is kept right: the current token,
/// where it is a literal, is the last one counted; the previous token, where
/// it is a literal, is the one before the next; and the literals counted plus
/// those left make all of them.
pub open spec fn counted(s: Seq<char>, st: PState) -> bool {
    &&& (st.current.kind == TokenKind::Number ==> st.current_number == st.numbers_seen - 1)
    &&& (st.previous.kind == TokenKind::Number ==> st.previous_number == next_literal(st) - 1)
    &&& st.numbers_seen + literals_from(s, st.pos) == literals_from(s, 0)
}

/// A counted state whose current token is the end only once no literal is left.
pub open spec fn settled(s: Seq<char>, st: PState) -> bool {
    &&& counted(s, st)
    &&& (st.current.kind == TokenKind::Eof ==> literals_from(s, st.pos) == 0)
}

proof fn lemma_loads_append(a: Seq<Instruction>, b: Seq<Instruction>)
    ensures
        loads(a + b) =~= loads(a) + loads(b),
    decreases b.len(),
{
    if b.len() == 0 {
        assert(a + b =~= a);
    } else {
        assert((a + b).drop_last() =~= a + b.drop_last());
        assert((a + b).last() == b.last());
        lemma_loads_append(a, b.drop_last());
    }
}

proof fn lemma_loads_single(i: Instruction)
    ensures
        loads(seq![i]) =~= match i {
            Instruction::Constant(v) => seq![v],
            _ => Seq::<Value>::empty(),
        },
{
    assert(seq![i].drop_last() =~= Seq::<Instruction>::empty());
    assert(loads(Seq::<Instruction>::empty()) =~= Seq::<Value>::empty());
}

proof fn lemma_literal_values_append(numbers: Seq<u64>, a: int, b: int, c: int)
    requires
        a <= b <= c,
    ensures
        literal_values(numbers, a, b) + literal_values(numbers, b, c) =~= literal_values(numbers, a, c),
{
}

/// A call of the skipping scanner from `pos` that hands out a token leaves
/// one literal fewer where the token is one, else as many; one that hands
/// out none leaves none.
proof fn lemma_literals_step(s: Seq<char>, pos: int, start: int)
    ensures
        ({
            let (t, end, _st) = scan_step(s, pos, start, true);
            match t {
                Some(token) => literals_from(s, pos) == literals_from(s, end) + if token.kind
                    == TokenKind::Number {
                    1int
                } else {
                    0int
                },
                None => literals_from(s, pos) == 0,
            }
        }),
{
    lemma_scan_step_forward(s, pos, start, pos, true);
    let (t, end, _st) = scan_step(s, pos, start, true);
    if t is Some && !(pos < end <= s.len()) {
        assert(scan_step(s, end, end, true).0 is None);
        assert(number_texts_from(s, end) =~= Seq::<Option<Seq<char>>>::empty());
    }
}

proof fn lemma_advance_counts(s: Seq<char>, st: PState)
    requires
        counted(s, st),
    ensures
        settled(s, advance(s, st)),
        next_literal(advance(s, st)) == next_literal(st) + if st.current.kind == TokenKind::Number {
            1int
        } else {
            0int
        },
    decreases s.len() + 1 - st.pos,
{
    lemma_literals_step(s, st.pos, st.start);
    lemma_scan_step_forward(s, st.pos, st.start, st.pos, true);
    lemma_scan_step_kind(s, st.pos, st.start, true);
    let (t, pos, start) = scan_step(s, st.pos, st.start, true);
    match t {
        Some(token) => {
            if token.kind is Error {
                let reported = report(s, PState { pos, start, ..st }, token, Message::Scan(token.kind->Error_0));
                if st.pos < pos <= s.len() + 1 {
                    lemma_advance_counts(s, reported);
                }
            }
        },
        None => {},
    }
}

proof fn lemma_consume_counts(s: Seq<char>, st: PState, kind: TokenKind, message: Message)
    requires
        settled(s, st),
    ensures
        settled(s, consume(s, st, kind, message)),
        next_literal(st) <= next_literal(consume(s, st, kind, message)),
        kind != TokenKind::Number ==> next_literal(consume(s, st, kind, message)) == next_literal(st),
{
    if st.current.kind == kind {
        lemma_advance_counts(s, st);
    }
}

proof fn lemma_expression_loads(s: Seq<char>, numbers: Seq<u64>, st: PState)
    requires
        settled(s, st),
    ensures
        settled(s, expression(s, numbers, st)),
        next_literal(st) <= next_literal(expression(s, numbers, st)),
        !expression(s, numbers, st).had_errors ==> loads(code_between(st, expression(s, numbers, st)))
            == literal_values(numbers, next_literal(st), next_literal(expression(s, numbers, st))),
    decreases measure(s, st), 8nat,
{
    lemma_parse_precedence_loads(s, numbers, st, Precedence::Assignment);
}

proof fn lemma_parse_precedence_loads(s: Seq<char>, numbers: Seq<u64>, st: PState, precedence: Precedence)
    requires
        settled(s, st),
    ensures
        settled(s, parse_precedence(s, numbers, st, precedence)),
        next_literal(st) <= next_literal(parse_precedence(s, numbers, st, precedence)),
        !parse_precedence(s, numbers, st, precedence).had_errors ==> loads(
            code_between(st, parse_precedence(s, numbers, st, precedence)),
        ) == literal_values(numbers, next_literal(st), next_literal(parse_precedence(s, numbers, st, precedence))),
    decreases measure(s, st), 7nat,
{
    let st1 = advance(s, st);
    lemma_advance_measure(s, st);
    lemma_advance_grows(s, st);
    lemma_advance_counts(s, st);
    let st2 = prefix(s, numbers, st1);
    lemma_prefix(s, numbers, st1);
    lemma_prefix_loads(s, numbers, st1);
    lemma_grows_compose(st, st1, st2);
    let a = next_literal(st);
    let b = next_literal(st2);
    assert(!st2.had_errors ==> loads(code_between(st, st2)) == literal_values(numbers, a, b)) by {
        if !st2.had_errors {
            assert(code_between(st, st2) =~= code_between(st1, st2));
            if st.current.kind == TokenKind::Number {
                assert(seq![Value::Number(number_value(numbers, a))] + literal_values(numbers, a + 1, b)
                    =~= literal_values(numbers, a, b));
            }
        }
    }
    if measure(s, st2) <= measure(s, st) {
        let st3 = infix_loop(s, numbers, st2, precedence);
        lemma_infix_loop(s, numbers, st2, precedence);
        lemma_infix_loop_loads(s, numbers, st2, precedence);
        lemma_grows_compose(st, st2, st3);
        assert(!st3.had_errors ==> loads(code_between(st, st3)) == literal_values(numbers, a, next_literal(st3)))
            by {
            lemma_loads_append(code_between(st, st2), code_between(st2, st3));
            lemma_literal_values_append(numbers, a, b, next_literal(st3));
        }
    }
}

proof fn lemma_infix_loop_loads(s: Seq<char>, numbers: Seq<u64>, st: PState, precedence: Precedence)
    requires
        settled(s, st),
    ensures
        settled(s, infix_loop(s, numbers, st, precedence)),
        next_literal(st) <= next_literal(infix_loop(s, numbers, st, precedence)),
        !infix_loop(s, numbers, st, precedence).had_errors ==> loads(
            code_between(st, infix_loop(s, numbers, st, precedence)),
        ) == literal_values(numbers, next_literal(st), next_literal(infix_loop(s, numbers, st, precedence))),
    decreases measure(s, st), 6nat,
{
    lemma_grows_refl(st);
    if precedence.rank() <= Precedence::of(st.current.kind).rank() {
        let st1 = advance(s, st);
        lemma_advance_measure(s, st);
        lemma_advance_grows(s, st);
        lemma_advance_counts(s, st);
        let st2 = infix(s, numbers, st1);
        lemma_infix(s, numbers, st1);
        lemma_infix_loads(s, numbers, st1);
        lemma_grows_compose(st, st1, st2);
        assert(code_between(st, st2) =~= code_between(st1, st2));
        if measure(s, st2) < measure(s, st) {
            let st3 = infix_loop(s, numbers, st2, precedence);
            lemma_infix_loop(s, numbers, st2, precedence);
            lemma_infix_loop_loads(s, numbers, st2, precedence);
            lemma_grows_compose(st, st2, st3);
            lemma_loads_append(code_between(st, st2), code_between(st2, st3));
            lemma_literal_values_append(numbers, next_literal(st), next_literal(st2), next_literal(st3));
        }
    } else {
        assert(loads(code_between(st, st)) =~= Seq::<Value>::empty());
    }
}

proof fn lemma_prefix_loads(s: Seq<char>, numbers: Seq<u64>, st: PState)
    requires
        settled(s, st),
    ensures
        settled(s, prefix(s, numbers, st)),
        next_literal(st) <= next_literal(prefix(s, numbers, st)),
        !prefix(s, numbers, st).had_errors ==> loads(code_between(st, prefix(s, numbers, st))) == if st.previous.kind
            == TokenKind::Number {
            seq![Value::Number(number_value(numbers, st.previous_number))] + literal_values(
                numbers,
                next_literal(st),
                next_literal(prefix(s, numbers, st)),
            )
        } else {
            literal_values(numbers, next_literal(st), next_literal(prefix(s, numbers, st)))
        },
    decreases measure_prev(s, st), 5nat,
{
    match st.previous.kind {
        TokenKind::LeftParen => lemma_grouping_loads(s, numbers, st),
        TokenKind::Minus => lemma_unary_loads(s, numbers, st),
        TokenKind::Number => {
            let e = Emit::Load(Value::Number(number_value(numbers, st.previous_number)));
            lemma_emit_grows(st, e);
            lemma_loads_single(instruction_of(e));
            assert(literal_values(numbers, next_literal(st), next_literal(st)) =~= Seq::<Value>::empty());
        },
        _ => {},
    }
}

proof fn lemma_infix_loads(s: Seq<char>, numbers: Seq<u64>, st: PState)
    requires
        settled(s, st),
    ensures
        settled(s, infix(s, numbers, st)),
        next_literal(st) <= next_literal(infix(s, numbers, st)),
        !infix(s, numbers, st).had_errors ==> loads(code_between(st, infix(s, numbers, st))) == literal_values(
            numbers,
            next_literal(st),
            next_literal(infix(s, numbers, st)),
        ),
    decreases measure_prev(s, st), 5nat,
{
    match st.previous.kind {
        TokenKind::Minus | TokenKind::Plus | TokenKind::Star | TokenKind::Slash => lemma_binary_loads(s, numbers, st),
        _ => {},
    }
}

proof fn lemma_grouping_loads(s: Seq<char>, numbers: Seq<u64>, st: PState)
    requires
        settled(s, st),
    ensures
        settled(s, grouping(s, numbers, st)),
        next_literal(st) <= next_literal(grouping(s, numbers, st)),
        !grouping(s, numbers, st).had_errors ==> loads(code_between(st, grouping(s, numbers, st))) == literal_values(
            numbers,
            next_literal(st),
            next_literal(grouping(s, numbers, st)),
        ),
    decreases measure(s, st), 9nat,
{
    let st1 = expression(s, numbers, st);
    lemma_expression(s, numbers, st);
    lemma_expression_loads(s, numbers, st);
    let st2 = consume(s, st1, TokenKind::RightParen, Message::ExpectRightParen);
    lemma_consume(s, st1, TokenKind::RightParen, Message::ExpectRightParen);
    lemma_consume_counts(s, st1, TokenKind::RightParen, Message::ExpectRightParen);
    lemma_grows_compose(st, st1, st2);
    assert(code_between(st, st1) + Seq::<Instruction>::empty() =~= code_between(st, st1));
}

proof fn lemma_unary_loads(s: Seq<char>, numbers: Seq<u64>, st: PState)
    requires
        settled(s, st),
    ensures
        settled(s, unary(s, numbers, st)),
        next_literal(st) <= next_literal(unary(s, numbers, st)),
        !unary(s, numbers, st).had_errors ==> loads(code_between(st, unary(s, numbers, st))) == literal_values(
            numbers,
            next_literal(st),
            next_literal(unary(s, numbers, st)),
        ),
    decreases measure(s, st), 9nat,
{
    let st1 = parse_precedence(s, numbers, st, Precedence::Unary);
    lemma_parse_precedence(s, numbers, st, Precedence::Unary);
    lemma_parse_precedence_loads(s, numbers, st, Precedence::Unary);
    let e = Emit::Op(OpCode::Negate);
    lemma_emit_grows(st1, e);
    lemma_grows_compose(st, st1, emit(st1, e));
    lemma_loads_append(code_between(st, st1), seq![instruction_of(e)]);
    lemma_loads_single(instruction_of(e));
}

proof fn lemma_binary_loads(s: Seq<char>, numbers: Seq<u64>, st: PState)
    requires
        settled(s, st),
    ensures
        settled(s, binary(s, numbers, st)),
        next_literal(st) <= next_literal(binary(s, numbers, st)),
        !binary(s, numbers, st).had_errors ==> loads(code_between(st, binary(s, numbers, st))) == literal_values(
            numbers,
            next_literal(st),
            next_literal(binary(s, numbers, st)),
        ),
    decreases measure(s, st), 9nat,
{
    let kind = st.previous.kind;
    let st1 = parse_precedence(s, numbers, st, Precedence::of(kind).higher());
    lemma_parse_precedence(s, numbers, st, Precedence::of(kind).higher());
    lemma_parse_precedence_loads(s, numbers, st, Precedence::of(kind).higher());
    let e = Emit::Op(crate::grammar::binary_op(kind));
    lemma_emit_grows(st1, e);
    lemma_grows_compose(st, st1, emit(st1, e));
    lemma_loads_append(code_between(st, st1), seq![instruction_of(e)]);
    lemma_loads_single(instruction_of(e));
}

} // verus!
