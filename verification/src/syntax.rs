use vstd::prelude::*;

use crate::chunk::{Instruction, OpCode};
use crate::codegen::{
    code_between, lemma_advance_grows, lemma_consume, lemma_emit_grows, lemma_expression, lemma_grows_compose,
    lemma_grows_refl, lemma_infix, lemma_infix_loop, lemma_instructions_push, lemma_parse_precedence, lemma_prefix,
    lemma_report_grows,
};
use crate::grammar::{
    advance, binary, binary_op, consume, emit, expression, grouping, infix, infix_loop, initial_state,
    lemma_advance_measure, lemma_scan_step_remaining, measure, measure_prev, number_value, parse_precedence,
    parse_source, prefix, report, unary, Emit, Message, PState, Precedence,
};
use crate::program::{instruction_of, instructions_of};
use crate::scanner::{
    lemma_scan_step_forward, lemma_token_scan_bounds, scan_step, token_scan, tokens, tokens_from, Token, TokenKind,
};
use crate::value::Value;

verus! {

// ---------------------------------------------------------------------------
// The grammar of expressions, read left to right:
//
//     sum     = product { ("+" | "-") product }
//     product = unary { ("*" | "/") unary }
//     unary   = "-" unary | NUMBER | "(" sum ")"
//
// Each rule gives the postfix code of what it reads, with the constants left
// out, and the tokens after it.
// ---------------------------------------------------------------------------

/// The instruction with the constant it loads left out (`nil` in its place).
pub open spec fn blank(i: Instruction) -> Instruction {
    match i {
        Instruction::Constant(_) => Instruction::Constant(Value::Nil),
        _ => i,
    }
}

/// The instructions with their constants left out.
pub open spec fn blanked(is: Seq<Instruction>) -> Seq<Instruction> {
    is.map_values(|i: Instruction| blank(i))
}

/// The kinds of the tokens.
pub open spec fn token_kinds(ts: Seq<Token>) -> Seq<TokenKind> {
    ts.map_values(|t: Token| t.kind)
}

/// The operation of a binary operator.
pub open spec fn operator_instruction(k: TokenKind) -> Instruction {
    match k {
        TokenKind::Plus => Instruction::Add,
        TokenKind::Minus => Instruction::Subtract,
        TokenKind::Star => Instruction::Multiply,
        _ => Instruction::Divide,
    }
}

/// What a rule reads: the code and the tokens left, or nothing where the
/// tokens do not start with what the rule reads.
pub type Reading = Option<(Seq<Instruction>, Seq<TokenKind>)>;

/// `unary = "-" unary | NUMBER | "(" sum ")"`.
pub open spec fn rd_unary(ks: Seq<TokenKind>) -> Reading
    decreases ks.len(), 0nat,
{
    if ks.len() == 0 {
        None
    } else if ks[0] == TokenKind::Minus {
        match rd_unary(ks.drop_first()) {
            Some((c, r)) => Some((c.push(Instruction::Negate), r)),
            None => None,
        }
    } else if ks[0] == TokenKind::Number {
        Some((seq![Instruction::Constant(Value::Nil)], ks.drop_first()))
    } else if ks[0] == TokenKind::LeftParen {
        match rd_sum(ks.drop_first()) {
            Some((c, r)) => if r.len() > 0 && r[0] == TokenKind::RightParen {
                Some((c, r.drop_first()))
            } else {
                None
            },
            None => None,
        }
    } else {
        None
    }
}

/// `{ ("*" | "/") unary }`, after the code `acc` of what came before.
pub open spec fn rd_product_rest(acc: Seq<Instruction>, ks: Seq<TokenKind>) -> Reading
    decreases ks.len(), 1nat,
{
    if ks.len() > 0 && (ks[0] == TokenKind::Star || ks[0] == TokenKind::Slash) {
        match rd_unary(ks.drop_first()) {
            Some((c, r)) => if r.len() < ks.len() {
                rd_product_rest(acc + c.push(operator_instruction(ks[0])), r)
            } else {
                None
            },
            None => None,
        }
    } else {
        Some((acc, ks))
    }
}

/// `product = unary { ("*" | "/") unary }`.
pub open spec fn rd_product(ks: Seq<TokenKind>) -> Reading
    decreases ks.len(), 2nat,
{
    match rd_unary(ks) {
        Some((c, r)) => if r.len() < ks.len() {
            rd_product_rest(c, r)
        } else {
            None
        },
        None => None,
    }
}

/// `{ ("+" | "-") product }`, after the code `acc` of what came before.
pub open spec fn rd_sum_rest(acc: Seq<Instruction>, ks: Seq<TokenKind>) -> Reading
    decreases ks.len(), 3nat,
{
    if ks.len() > 0 && (ks[0] == TokenKind::Plus || ks[0] == TokenKind::Minus) {
        match rd_product(ks.drop_first()) {
            Some((c, r)) => if r.len() < ks.len() {
                rd_sum_rest(acc + c.push(operator_instruction(ks[0])), r)
            } else {
                None
            },
            None => None,
        }
    } else {
        Some((acc, ks))
    }
}

/// `sum = product { ("+" | "-") product }`.
pub open spec fn rd_sum(ks: Seq<TokenKind>) -> Reading
    decreases ks.len(), 4nat,
{
    match rd_product(ks) {
        Some((c, r)) => if r.len() < ks.len() {
            rd_sum_rest(c, r)
        } else {
            None
        },
        None => None,
    }
}

// ---------------------------------------------------------------------------
// Facts about the rules.
// ---------------------------------------------------------------------------

/// A reading that takes at least one token.
pub open spec fn shortens(reading: Reading, ks: Seq<TokenKind>) -> bool {
    reading matches Some((_c, r)) ==> r.len() < ks.len()
}

/// A reading that takes no more tokens than there are.
pub open spec fn keeps_within(reading: Reading, ks: Seq<TokenKind>) -> bool {
    reading matches Some((_c, r)) ==> r.len() <= ks.len()
}

pub proof fn lemma_unary_shortens(ks: Seq<TokenKind>)
    ensures
        shortens(rd_unary(ks), ks),
    decreases ks.len(), 0nat,
{
    if ks.len() > 0 {
        if ks[0] == TokenKind::Minus {
            lemma_unary_shortens(ks.drop_first());
        } else if ks[0] == TokenKind::LeftParen {
            lemma_sum_shortens(ks.drop_first());
        }
    }
}

pub proof fn lemma_product_rest_within(acc: Seq<Instruction>, ks: Seq<TokenKind>)
    ensures
        keeps_within(rd_product_rest(acc, ks), ks),
    decreases ks.len(), 1nat,
{
    if ks.len() > 0 && (ks[0] == TokenKind::Star || ks[0] == TokenKind::Slash) {
        if let Some((c, r)) = rd_unary(ks.drop_first()) {
            if r.len() < ks.len() {
                lemma_product_rest_within(acc + c.push(operator_instruction(ks[0])), r);
            }
        }
    }
}

pub proof fn lemma_product_shortens(ks: Seq<TokenKind>)
    ensures
        shortens(rd_product(ks), ks),
    decreases ks.len(), 2nat,
{
    lemma_unary_shortens(ks);
    if let Some((c, r)) = rd_unary(ks) {
        if r.len() < ks.len() {
            lemma_product_rest_within(c, r);
        }
    }
}

pub proof fn lemma_sum_rest_within(acc: Seq<Instruction>, ks: Seq<TokenKind>)
    ensures
        keeps_within(rd_sum_rest(acc, ks), ks),
    decreases ks.len(), 3nat,
{
    if ks.len() > 0 && (ks[0] == TokenKind::Plus || ks[0] == TokenKind::Minus) {
        if let Some((c, r)) = rd_product(ks.drop_first()) {
            if r.len() < ks.len() {
                lemma_sum_rest_within(acc + c.push(operator_instruction(ks[0])), r);
            }
        }
    }
}

pub proof fn lemma_sum_shortens(ks: Seq<TokenKind>)
    ensures
        shortens(rd_sum(ks), ks),
    decreases ks.len(), 4nat,
{
    lemma_product_shortens(ks);
    if let Some((c, r)) = rd_product(ks) {
        if r.len() < ks.len() {
            lemma_sum_rest_within(c, r);
        }
    }
}

/// A product stops before a token that would continue it.
pub proof fn lemma_product_rest_stops(acc: Seq<Instruction>, ks: Seq<TokenKind>)
    ensures
        rd_product_rest(acc, ks) matches Some((_c, r)) ==> !(r.len() > 0 && (r[0] == TokenKind::Star || r[0]
            == TokenKind::Slash)),
    decreases ks.len(),
{
    if ks.len() > 0 && (ks[0] == TokenKind::Star || ks[0] == TokenKind::Slash) {
        if let Some((c, r)) = rd_unary(ks.drop_first()) {
            if r.len() < ks.len() {
                lemma_product_rest_stops(acc + c.push(operator_instruction(ks[0])), r);
            }
        }
    }
}

// ---------------------------------------------------------------------------
// The parse reads the grammar.
// ---------------------------------------------------------------------------

/// The code of a source that compiles is, with its constants left out, the
/// postfix form in which the grammar of sums, products and negations reads
/// all of the source's tokens (see `rd_sum`), followed by a return: operators
/// of products bind more strongly than those of sums, and operators of one
/// rule group to the left.
pub proof fn law_code_is_postfix(s: Seq<char>, numbers: Seq<u64>)
    requires
        !parse_source(s, numbers).had_errors,
    ensures
        instructions_of(parse_source(s, numbers).emitted).len() > 0,
        instructions_of(parse_source(s, numbers).emitted).last() == Instruction::Return,
        rd_sum(token_kinds(tokens(s, true))) == Some(
            (
                blanked(instructions_of(parse_source(s, numbers).emitted).drop_last()),
                Seq::<TokenKind>::empty(),
            ),
        ),
{
    let init = initial_state(s);
    let st0 = advance(s, init);
    lemma_advance_measure(s, init);
    lemma_advance_rest(s, init);
    let st1 = expression(s, numbers, st0);
    lemma_expression(s, numbers, st0);
    lemma_expression_reads(s, numbers, st0);
    let st2 = consume(s, st1, TokenKind::Eof, Message::ExpectEnd);
    lemma_consume(s, st1, TokenKind::Eof, Message::ExpectEnd);
    let fin = parse_source(s, numbers);
    assert(fin == emit(st2, Emit::Op(OpCode::Return)));
    assert(st1.current.kind == TokenKind::Eof);
    assert(st1.emitted.subrange(0, 0) =~= Seq::<(Emit, usize)>::empty());
    assert(st1.emitted.subrange(0, st1.emitted.len() as int) =~= st1.emitted);
    assert(st2.emitted == st1.emitted) by {
        assert(code_between(st1, st2).len() == 0);
        assert(st2.emitted.subrange(0, st1.emitted.len() as int) == st1.emitted);
        assert(st2.emitted.subrange(0, st2.emitted.len() as int) =~= st2.emitted);
    }
    lemma_instructions_push(st2.emitted, (Emit::Op(OpCode::Return), st2.previous.span.line));
    assert(instructions_of(fin.emitted) =~= code_between(st0, st1).push(Instruction::Return));
    assert(instructions_of(fin.emitted).drop_last() =~= code_between(st0, st1));
}

/// The kinds of the tokens a parse has yet to read, the current one first.
pub open spec fn rest_kinds(s: Seq<char>, st: PState) -> Seq<TokenKind> {
    if st.current.kind == TokenKind::Eof {
        Seq::empty()
    } else {
        seq![st.current.kind] + token_kinds(tokens_from(s, st.pos, true))
    }
}

/// The current token is the end only where no token is left.
pub open spec fn aligned(s: Seq<char>, st: PState) -> bool {
    st.current.kind == TokenKind::Eof ==> tokens_from(s, st.pos, true).len() == 0
}

/// What the parse at `precedence` reads: a sum up to the strength of sums, a
/// product at the strength of products, a negation or operand above.
pub open spec fn rd_level(precedence: Precedence, ks: Seq<TokenKind>) -> Reading {
    if precedence.rank() >= 8 {
        rd_unary(ks)
    } else if precedence.rank() == 7 {
        rd_product(ks)
    } else {
        rd_sum(ks)
    }
}

/// What follows an operand at `precedence`, after the code `acc`.
pub open spec fn rd_loop(precedence: Precedence, acc: Seq<Instruction>, ks: Seq<TokenKind>) -> Reading {
    if precedence.rank() >= 8 {
        Some((acc, ks))
    } else if precedence.rank() == 7 {
        rd_product_rest(acc, ks)
    } else {
        match rd_product_rest(acc, ks) {
            Some((a, r)) => rd_sum_rest(a, r),
            None => None,
        }
    }
}

/// The right operand of the binary operator `k`, then its operation.
pub open spec fn rd_infix(k: TokenKind, ks: Seq<TokenKind>) -> Reading {
    let right = if k == TokenKind::Plus || k == TokenKind::Minus {
        rd_product(ks)
    } else if k == TokenKind::Star || k == TokenKind::Slash {
        rd_unary(ks)
    } else {
        None
    };
    match right {
        Some((c, r)) => Some((c.push(operator_instruction(k)), r)),
        None => None,
    }
}

proof fn lemma_rest_len(s: Seq<char>, st: PState)
    requires
        aligned(s, st),
    ensures
        rest_kinds(s, st).len() == measure(s, st),
{
}

proof fn lemma_blanked_append(a: Seq<Instruction>, b: Seq<Instruction>)
    ensures
        blanked(a + b) =~= blanked(a) + blanked(b),
{
}

proof fn lemma_level_unfold(precedence: Precedence, ks: Seq<TokenKind>)
    requires
        precedence != Precedence::Lowest,
    ensures
        rd_level(precedence, ks) == match rd_unary(ks) {
            Some((c, r)) => rd_loop(precedence, c, r),
            None => None,
        },
{
    lemma_unary_shortens(ks);
    lemma_product_shortens(ks);
}

/// Where it meets no unreadable token, a move to the next token leaves the
/// tokens the scanner had yet to hand out.
proof fn lemma_advance_rest(s: Seq<char>, st: PState)
    ensures
        aligned(s, advance(s, st)),
        !advance(s, st).had_errors ==> rest_kinds(s, advance(s, st)) == token_kinds(tokens_from(s, st.pos, true)),
        advance(s, st).previous == st.current,
    decreases s.len() + 1 - st.pos,
{
    lemma_advance_measure(s, st);
    lemma_scan_step_remaining(s, st.pos, st.start);
    lemma_scan_step_forward(s, st.pos, st.start, st.pos, true);
    let (t, pos, start) = scan_step(s, st.pos, st.start, true);
    match t {
        Some(token) => {
            if token.kind is Error {
                let reported = report(s, PState { pos, start, ..st }, token, Message::Scan(token.kind->Error_0));
                if st.pos < pos <= s.len() + 1 {
                    lemma_advance_rest(s, reported);
                    lemma_advance_measure(s, reported);
                }
            } else {
                lemma_scan_step_end(s, st.pos, st.start);
                assert(tokens_from(s, st.pos, true) =~= seq![token] + tokens_from(s, pos, true));
                assert(token_kinds(seq![token] + tokens_from(s, pos, true)) =~= seq![token.kind] + token_kinds(
                    tokens_from(s, pos, true),
                ));
            }
        },
        None => {
            assert(token_kinds(tokens_from(s, st.pos, true)) =~= Seq::<TokenKind>::empty());
        },
    }
}

/// A call of the skipping scanner that hands out a token it could read ends
/// within the source.
proof fn lemma_scan_step_end(s: Seq<char>, pos: int, start: int)
    ensures
        scan_step(s, pos, start, true).0 matches Some(t) ==> !(t.kind is Error) ==> scan_step(s, pos, start, true).1
            <= s.len(),
    decreases s.len() - pos,
{
    if 0 <= pos < s.len() {
        lemma_token_scan_bounds(s, pos);
        let (kind, end) = token_scan(s, pos);
        if kind.is_ignorable() && pos < end <= s.len() {
            lemma_scan_step_end(s, end, pos);
        }
    }
}

proof fn lemma_expression_reads(s: Seq<char>, numbers: Seq<u64>, st: PState)
    requires
        aligned(s, st),
    ensures
        aligned(s, expression(s, numbers, st)),
        !expression(s, numbers, st).had_errors ==> rd_sum(rest_kinds(s, st)) == Some(
            (blanked(code_between(st, expression(s, numbers, st))), rest_kinds(s, expression(s, numbers, st))),
        ),
    decreases measure(s, st), 8nat,
{
    lemma_parse_precedence_reads(s, numbers, st, Precedence::Assignment);
}

proof fn lemma_parse_precedence_reads(s: Seq<char>, numbers: Seq<u64>, st: PState, precedence: Precedence)
    requires
        aligned(s, st),
        precedence != Precedence::Lowest,
    ensures
        aligned(s, parse_precedence(s, numbers, st, precedence)),
        !parse_precedence(s, numbers, st, precedence).had_errors ==> rd_level(precedence, rest_kinds(s, st)) == Some(
            (
                blanked(code_between(st, parse_precedence(s, numbers, st, precedence))),
                rest_kinds(s, parse_precedence(s, numbers, st, precedence)),
            ),
        ),
    decreases measure(s, st), 7nat,
{
    let st1 = advance(s, st);
    lemma_advance_measure(s, st);
    lemma_advance_grows(s, st);
    lemma_advance_rest(s, st);
    let st2 = prefix(s, numbers, st1);
    lemma_prefix(s, numbers, st1);
    lemma_prefix_reads(s, numbers, st1);
    lemma_grows_compose(st, st1, st2);
    let b = blanked(code_between(st1, st2));
    if measure(s, st2) <= measure(s, st) {
        let st3 = infix_loop(s, numbers, st2, precedence);
        lemma_infix_loop(s, numbers, st2, precedence);
        lemma_infix_loop_reads(s, numbers, st2, precedence, b);
        lemma_grows_compose(st, st2, st3);
    }
    let res = parse_precedence(s, numbers, st, precedence);
    if !res.had_errors {
        assert(!st2.had_errors);
        assert(st.current.kind != TokenKind::Eof);
        assert(seq![st1.previous.kind] + rest_kinds(s, st1) =~= rest_kinds(s, st));
        lemma_unary_shortens(rest_kinds(s, st));
        lemma_rest_len(s, st);
        lemma_rest_len(s, st2);
        assert(measure(s, st2) < measure(s, st));
        let st3 = infix_loop(s, numbers, st2, precedence);
        lemma_level_unfold(precedence, rest_kinds(s, st));
        assert(code_between(st, st2) =~= code_between(st1, st2));
        lemma_blanked_append(code_between(st, st2), code_between(st2, st3));
    }
}

proof fn lemma_infix_loop_reads(
    s: Seq<char>,
    numbers: Seq<u64>,
    st: PState,
    precedence: Precedence,
    acc: Seq<Instruction>,
)
    requires
        aligned(s, st),
        precedence != Precedence::Lowest,
    ensures
        aligned(s, infix_loop(s, numbers, st, precedence)),
        !infix_loop(s, numbers, st, precedence).had_errors ==> rd_loop(precedence, acc, rest_kinds(s, st)) == Some(
            (
                acc + blanked(code_between(st, infix_loop(s, numbers, st, precedence))),
                rest_kinds(s, infix_loop(s, numbers, st, precedence)),
            ),
        ),
    decreases measure(s, st), 6nat,
{
    lemma_grows_refl(st);
    let rk = rest_kinds(s, st);
    if precedence.rank() <= Precedence::of(st.current.kind).rank() {
        let op = st.current.kind;
        let st1 = advance(s, st);
        lemma_advance_measure(s, st);
        lemma_advance_grows(s, st);
        lemma_advance_rest(s, st);
        let st2 = infix(s, numbers, st1);
        lemma_infix(s, numbers, st1);
        lemma_infix_reads(s, numbers, st1);
        lemma_grows_compose(st, st1, st2);
        assert(code_between(st, st2) =~= code_between(st1, st2));
        let acc2 = acc + blanked(code_between(st, st2));
        if measure(s, st2) < measure(s, st) {
            let st3 = infix_loop(s, numbers, st2, precedence);
            lemma_infix_loop(s, numbers, st2, precedence);
            lemma_infix_loop_reads(s, numbers, st2, precedence, acc2);
            lemma_grows_compose(st, st2, st3);
            lemma_blanked_append(code_between(st, st2), code_between(st2, st3));
        }
        let res = infix_loop(s, numbers, st, precedence);
        if !res.had_errors {
            assert(!st2.had_errors);
            assert(rk.drop_first() =~= rest_kinds(s, st1));
            assert(rk[0] == op);
            let r = rest_kinds(s, st2);
            if op == TokenKind::Plus || op == TokenKind::Minus {
                lemma_product_shortens(rest_kinds(s, st1));
            } else {
                lemma_unary_shortens(rest_kinds(s, st1));
            }
            lemma_rest_len(s, st);
            lemma_rest_len(s, st2);
            assert(measure(s, st2) < measure(s, st));
            let st3 = infix_loop(s, numbers, st2, precedence);
            assert(acc2 + blanked(code_between(st2, st3)) =~= acc + blanked(code_between(st, st3)));
            if op == TokenKind::Plus || op == TokenKind::Minus {
                let (c, r2) = rd_product(rest_kinds(s, st1))->Some_0;
                assert(r2 == r);
                assert(acc2 =~= acc + c.push(operator_instruction(op)));
                assert(rd_product_rest(acc, rk) == Some((acc, rk)));
                let (c0, r0) = rd_unary(rest_kinds(s, st1))->Some_0;
                lemma_unary_shortens(rest_kinds(s, st1));
                lemma_product_rest_stops(c0, r0);
                assert(rd_product_rest(acc2, r) == Some((acc2, r)));
            } else {
                let (c, r2) = rd_unary(rest_kinds(s, st1))->Some_0;
                assert(r2 == r);
                assert(acc2 =~= acc + c.push(operator_instruction(op)));
                assert(rd_product_rest(acc, rk) == rd_product_rest(acc2, r));
            }
        }
    } else {
        assert(acc + blanked(code_between(st, st)) =~= acc);
    }
}

proof fn lemma_prefix_reads(s: Seq<char>, numbers: Seq<u64>, st: PState)
    requires
        aligned(s, st),
    ensures
        aligned(s, prefix(s, numbers, st)),
        !prefix(s, numbers, st).had_errors ==> rd_unary(seq![st.previous.kind] + rest_kinds(s, st)) == Some(
            (blanked(code_between(st, prefix(s, numbers, st))), rest_kinds(s, prefix(s, numbers, st))),
        ),
    decreases measure_prev(s, st), 5nat,
{
    let ks = seq![st.previous.kind] + rest_kinds(s, st);
    assert(ks[0] == st.previous.kind);
    assert(ks.drop_first() =~= rest_kinds(s, st));
    match st.previous.kind {
        TokenKind::LeftParen => lemma_grouping_reads(s, numbers, st),
        TokenKind::Minus => lemma_unary_reads(s, numbers, st),
        TokenKind::Number => {
            let e = Emit::Load(Value::Number(number_value(numbers, st.previous_number)));
            lemma_emit_grows(st, e);
            assert(blanked(seq![instruction_of(e)]) =~= seq![Instruction::Constant(Value::Nil)]);
        },
        _ => lemma_report_grows(s, st, st.previous, Message::ExpectExpression),
    }
}

proof fn lemma_infix_reads(s: Seq<char>, numbers: Seq<u64>, st: PState)
    requires
        aligned(s, st),
    ensures
        aligned(s, infix(s, numbers, st)),
        !infix(s, numbers, st).had_errors ==> rd_infix(st.previous.kind, rest_kinds(s, st)) == Some(
            (blanked(code_between(st, infix(s, numbers, st))), rest_kinds(s, infix(s, numbers, st))),
        ),
    decreases measure_prev(s, st), 5nat,
{
    match st.previous.kind {
        TokenKind::Minus | TokenKind::Plus | TokenKind::Star | TokenKind::Slash => lemma_binary_reads(s, numbers, st),
        _ => lemma_report_grows(s, st, st.previous, Message::ExpectExpression),
    }
}

proof fn lemma_grouping_reads(s: Seq<char>, numbers: Seq<u64>, st: PState)
    requires
        aligned(s, st),
    ensures
        aligned(s, grouping(s, numbers, st)),
        !grouping(s, numbers, st).had_errors ==> rd_unary(seq![TokenKind::LeftParen] + rest_kinds(s, st)) == Some(
            (blanked(code_between(st, grouping(s, numbers, st))), rest_kinds(s, grouping(s, numbers, st))),
        ),
    decreases measure(s, st), 9nat,
{
    let st1 = expression(s, numbers, st);
    lemma_expression(s, numbers, st);
    lemma_expression_reads(s, numbers, st);
    let st2 = consume(s, st1, TokenKind::RightParen, Message::ExpectRightParen);
    lemma_consume(s, st1, TokenKind::RightParen, Message::ExpectRightParen);
    lemma_advance_rest(s, st1);
    lemma_grows_compose(st, st1, st2);
    let ks = seq![TokenKind::LeftParen] + rest_kinds(s, st);
    assert(ks.drop_first() =~= rest_kinds(s, st));
    if !st2.had_errors {
        assert(st1.current.kind == TokenKind::RightParen);
        assert(rest_kinds(s, st1).drop_first() =~= rest_kinds(s, st2));
        assert(code_between(st, st2) =~= code_between(st, st1));
    }
}

proof fn lemma_unary_reads(s: Seq<char>, numbers: Seq<u64>, st: PState)
    requires
        aligned(s, st),
    ensures
        aligned(s, unary(s, numbers, st)),
        !unary(s, numbers, st).had_errors ==> rd_unary(seq![TokenKind::Minus] + rest_kinds(s, st)) == Some(
            (blanked(code_between(st, unary(s, numbers, st))), rest_kinds(s, unary(s, numbers, st))),
        ),
    decreases measure(s, st), 9nat,
{
    let st1 = parse_precedence(s, numbers, st, Precedence::Unary);
    lemma_parse_precedence(s, numbers, st, Precedence::Unary);
    lemma_parse_precedence_reads(s, numbers, st, Precedence::Unary);
    let e = Emit::Op(OpCode::Negate);
    lemma_emit_grows(st1, e);
    lemma_grows_compose(st, st1, emit(st1, e));
    lemma_blanked_append(code_between(st, st1), seq![instruction_of(e)]);
    let ks = seq![TokenKind::Minus] + rest_kinds(s, st);
    assert(ks.drop_first() =~= rest_kinds(s, st));
    assert(blanked(code_between(st, st1)) + blanked(seq![instruction_of(e)]) =~= blanked(code_between(st, st1)).push(
        Instruction::Negate,
    ));
}

proof fn lemma_binary_reads(s: Seq<char>, numbers: Seq<u64>, st: PState)
    requires
        aligned(s, st),
        st.previous.kind == TokenKind::Plus || st.previous.kind == TokenKind::Minus || st.previous.kind
            == TokenKind::Star || st.previous.kind == TokenKind::Slash,
    ensures
        aligned(s, binary(s, numbers, st)),
        !binary(s, numbers, st).had_errors ==> rd_infix(st.previous.kind, rest_kinds(s, st)) == Some(
            (blanked(code_between(st, binary(s, numbers, st))), rest_kinds(s, binary(s, numbers, st))),
        ),
    decreases measure(s, st), 9nat,
{
    let kind = st.previous.kind;
    let level = Precedence::of(kind).higher();
    let st1 = parse_precedence(s, numbers, st, level);
    lemma_parse_precedence(s, numbers, st, level);
    lemma_parse_precedence_reads(s, numbers, st, level);
    let e = Emit::Op(binary_op(kind));
    lemma_emit_grows(st1, e);
    lemma_grows_compose(st, st1, emit(st1, e));
    lemma_blanked_append(code_between(st, st1), seq![instruction_of(e)]);
    assert(blanked(code_between(st, st1)) + blanked(seq![instruction_of(e)]) =~= blanked(code_between(st, st1)).push(
        operator_instruction(kind),
    ));
}

// ---------------------------------------------------------------------------
// What the grammar reads, the parse reads without error.
// ---------------------------------------------------------------------------

/// A source compiles exactly when the grammar of sums, products and
/// negations reads all of its tokens.
pub proof fn law_compiles_iff_grammar_reads(s: Seq<char>, numbers: Seq<u64>)
    ensures
        !parse_source(s, numbers).had_errors <==> (rd_sum(token_kinds(tokens(s, true))) matches Some((_c, r))
            && r.len() == 0),
{
    if !parse_source(s, numbers).had_errors {
        law_code_is_postfix(s, numbers);
    }
    let ks = token_kinds(tokens(s, true));
    if let Some((_c, r)) = rd_sum(ks) {
        if r.len() == 0 {
            lemma_sum_clean(ks);
            assert(no_unreadable(ks));
            let init = initial_state(s);
            let st0 = advance(s, init);
            lemma_advance_measure(s, init);
            lemma_advance_rest(s, init);
            lemma_advance_clean(s, init);
            assert(rest_kinds(s, st0) == ks);
            let st1 = expression(s, numbers, st0);
            lemma_expression(s, numbers, st0);
            lemma_expression_reads(s, numbers, st0);
            lemma_expression_completes(s, numbers, st0);
            assert(rest_kinds(s, st1).len() == 0);
            assert(st1.current.kind == TokenKind::Eof);
            lemma_advance_clean(s, st1);
            lemma_consume(s, st1, TokenKind::Eof, Message::ExpectEnd);
        }
    }
}

/// No token of `ks` is one the scanner could not read.
pub open spec fn no_unreadable(ks: Seq<TokenKind>) -> bool {
    forall|k: int| 0 <= k < ks.len() ==> !((#[trigger] ks[k]) is Error)
}

/// `r` is what is left of `ks` after a reading of readable tokens.
pub open spec fn clean_suffix(ks: Seq<TokenKind>, r: Seq<TokenKind>) -> bool {
    &&& r.len() <= ks.len()
    &&& r == ks.subrange(ks.len() - r.len(), ks.len() as int)
    &&& forall|k: int| 0 <= k < ks.len() - r.len() ==> !((#[trigger] ks[k]) is Error)
}

/// The tokens left after a reading.
pub open spec fn left_clean(reading: Reading, ks: Seq<TokenKind>) -> bool {
    reading matches Some((_c, r)) ==> clean_suffix(ks, r)
}

proof fn lemma_clean_refl(ks: Seq<TokenKind>)
    ensures
        clean_suffix(ks, ks),
{
    assert(ks.subrange(0, ks.len() as int) =~= ks);
}

proof fn lemma_clean_first(ks: Seq<TokenKind>)
    requires
        ks.len() > 0,
        !(ks[0] is Error),
    ensures
        clean_suffix(ks, ks.drop_first()),
{
    assert(ks.drop_first() =~= ks.subrange(1, ks.len() as int));
}

proof fn lemma_clean_trans(a: Seq<TokenKind>, b: Seq<TokenKind>, c: Seq<TokenKind>)
    requires
        clean_suffix(a, b),
        clean_suffix(b, c),
    ensures
        clean_suffix(a, c),
{
    assert(c =~= a.subrange(a.len() - c.len(), a.len() as int));
    assert forall|k: int| 0 <= k < a.len() - c.len() implies !((#[trigger] a[k]) is Error) by {
        if k >= a.len() - b.len() {
            assert(a[k] == b[k - (a.len() - b.len())]);
        }
    }
}

proof fn lemma_clean_keeps(ks: Seq<TokenKind>, r: Seq<TokenKind>)
    requires
        clean_suffix(ks, r),
        no_unreadable(ks),
    ensures
        no_unreadable(r),
{
    assert forall|k: int| 0 <= k < r.len() implies !((#[trigger] r[k]) is Error) by {
        assert(r[k] == ks[k + (ks.len() - r.len())]);
    }
}

proof fn lemma_unary_clean(ks: Seq<TokenKind>)
    ensures
        left_clean(rd_unary(ks), ks),
    decreases ks.len(), 0nat,
{
    if ks.len() > 0 {
        if ks[0] == TokenKind::Minus {
            lemma_unary_clean(ks.drop_first());
            lemma_clean_first(ks);
            if let Some((_c, r)) = rd_unary(ks.drop_first()) {
                lemma_clean_trans(ks, ks.drop_first(), r);
            }
        } else if ks[0] == TokenKind::Number {
            lemma_clean_first(ks);
        } else if ks[0] == TokenKind::LeftParen {
            lemma_sum_clean(ks.drop_first());
            lemma_clean_first(ks);
            if let Some((_c, r)) = rd_sum(ks.drop_first()) {
                if r.len() > 0 && r[0] == TokenKind::RightParen {
                    lemma_clean_trans(ks, ks.drop_first(), r);
                    lemma_clean_first(r);
                    lemma_clean_trans(ks, r, r.drop_first());
                }
            }
        }
    }
}

proof fn lemma_product_rest_clean(acc: Seq<Instruction>, ks: Seq<TokenKind>)
    ensures
        left_clean(rd_product_rest(acc, ks), ks),
    decreases ks.len(), 1nat,
{
    if ks.len() > 0 && (ks[0] == TokenKind::Star || ks[0] == TokenKind::Slash) {
        lemma_unary_clean(ks.drop_first());
        lemma_clean_first(ks);
        if let Some((c, r)) = rd_unary(ks.drop_first()) {
            if r.len() < ks.len() {
                let acc2 = acc + c.push(operator_instruction(ks[0]));
                lemma_product_rest_clean(acc2, r);
                lemma_clean_trans(ks, ks.drop_first(), r);
                if let Some((_a, r2)) = rd_product_rest(acc2, r) {
                    lemma_clean_trans(ks, r, r2);
                }
            }
        }
    } else {
        lemma_clean_refl(ks);
    }
}

proof fn lemma_product_clean(ks: Seq<TokenKind>)
    ensures
        left_clean(rd_product(ks), ks),
    decreases ks.len(), 2nat,
{
    lemma_unary_clean(ks);
    if let Some((c, r)) = rd_unary(ks) {
        if r.len() < ks.len() {
            lemma_product_rest_clean(c, r);
            if let Some((_a, r2)) = rd_product_rest(c, r) {
                lemma_clean_trans(ks, r, r2);
            }
        }
    }
}

proof fn lemma_sum_rest_clean(acc: Seq<Instruction>, ks: Seq<TokenKind>)
    ensures
        left_clean(rd_sum_rest(acc, ks), ks),
    decreases ks.len(), 3nat,
{
    if ks.len() > 0 && (ks[0] == TokenKind::Plus || ks[0] == TokenKind::Minus) {
        lemma_product_clean(ks.drop_first());
        lemma_clean_first(ks);
        if let Some((c, r)) = rd_product(ks.drop_first()) {
            if r.len() < ks.len() {
                let acc2 = acc + c.push(operator_instruction(ks[0]));
                lemma_sum_rest_clean(acc2, r);
                lemma_clean_trans(ks, ks.drop_first(), r);
                if let Some((_a, r2)) = rd_sum_rest(acc2, r) {
                    lemma_clean_trans(ks, r, r2);
                }
            }
        }
    } else {
        lemma_clean_refl(ks);
    }
}

proof fn lemma_sum_clean(ks: Seq<TokenKind>)
    ensures
        left_clean(rd_sum(ks), ks),
    decreases ks.len(), 4nat,
{
    lemma_product_clean(ks);
    if let Some((c, r)) = rd_product(ks) {
        if r.len() < ks.len() {
            lemma_sum_rest_clean(c, r);
            if let Some((_a, r2)) = rd_sum_rest(c, r) {
                lemma_clean_trans(ks, r, r2);
            }
        }
    }
}

proof fn lemma_infix_clean(k: TokenKind, ks: Seq<TokenKind>)
    ensures
        left_clean(rd_infix(k, ks), ks),
{
    lemma_product_clean(ks);
    lemma_unary_clean(ks);
}

/// One operator more in the loop after an operand.
proof fn lemma_loop_step(precedence: Precedence, acc: Seq<Instruction>, ks: Seq<TokenKind>)
    requires
        precedence != Precedence::Lowest,
        ks.len() > 0,
        precedence.rank() <= Precedence::of(ks[0]).rank(),
        rd_infix(ks[0], ks.drop_first()) is Some,
    ensures
        ({
            let (c, r) = rd_infix(ks[0], ks.drop_first())->Some_0;
            rd_loop(precedence, acc, ks) == rd_loop(precedence, acc + c, r)
        }),
{
    let op = ks[0];
    let (c, r) = rd_infix(op, ks.drop_first())->Some_0;
    lemma_product_shortens(ks.drop_first());
    lemma_unary_shortens(ks.drop_first());
    if op == TokenKind::Plus || op == TokenKind::Minus {
        let (c0, r0) = rd_unary(ks.drop_first())->Some_0;
        lemma_product_rest_stops(c0, r0);
        assert(rd_product_rest(acc, ks) == Some((acc, ks)));
        assert(rd_product_rest(acc + c, r) == Some((acc + c, r)));
    }
}

/// Where the tokens after the current one can all be read, moving to the
/// next token reports no error.
proof fn lemma_advance_clean(s: Seq<char>, st: PState)
    requires
        no_unreadable(token_kinds(tokens_from(s, st.pos, true))),
        !st.had_errors,
    ensures
        !advance(s, st).had_errors,
{
    lemma_scan_step_remaining(s, st.pos, st.start);
    lemma_scan_step_forward(s, st.pos, st.start, st.pos, true);
    let (t, pos, start) = scan_step(s, st.pos, st.start, true);
    if let Some(token) = t {
        assert(tokens_from(s, st.pos, true)[0] == token);
        assert(token_kinds(tokens_from(s, st.pos, true))[0] == token.kind);
    }
}

proof fn lemma_expression_completes(s: Seq<char>, numbers: Seq<u64>, st: PState)
    requires
        aligned(s, st),
        !st.had_errors,
        no_unreadable(rest_kinds(s, st)),
        rd_sum(rest_kinds(s, st)) is Some,
    ensures
        !expression(s, numbers, st).had_errors,
    decreases measure(s, st), 8nat,
{
    lemma_parse_precedence_completes(s, numbers, st, Precedence::Assignment);
}

proof fn lemma_parse_precedence_completes(s: Seq<char>, numbers: Seq<u64>, st: PState, precedence: Precedence)
    requires
        aligned(s, st),
        precedence != Precedence::Lowest,
        !st.had_errors,
        no_unreadable(rest_kinds(s, st)),
        rd_level(precedence, rest_kinds(s, st)) is Some,
    ensures
        !parse_precedence(s, numbers, st, precedence).had_errors,
    decreases measure(s, st), 7nat,
{
    let rk = rest_kinds(s, st);
    lemma_level_unfold(precedence, rk);
    assert(st.current.kind != TokenKind::Eof);
    assert(token_kinds(tokens_from(s, st.pos, true)) =~= rk.drop_first());
    assert(no_unreadable(rk.drop_first()));
    let st1 = advance(s, st);
    lemma_advance_measure(s, st);
    lemma_advance_grows(s, st);
    lemma_advance_rest(s, st);
    lemma_advance_clean(s, st);
    assert(seq![st1.previous.kind] + rest_kinds(s, st1) =~= rk);
    assert(no_unreadable(rest_kinds(s, st1)));
    let st2 = prefix(s, numbers, st1);
    lemma_prefix(s, numbers, st1);
    lemma_prefix_reads(s, numbers, st1);
    lemma_prefix_completes(s, numbers, st1);
    let (c1, r1) = rd_unary(rk)->Some_0;
    assert(rest_kinds(s, st2) == r1);
    lemma_unary_shortens(rk);
    lemma_unary_clean(rk);
    lemma_clean_keeps(rk, r1);
    lemma_rest_len(s, st);
    lemma_rest_len(s, st2);
    lemma_infix_loop_completes(s, numbers, st2, precedence, c1);
}

proof fn lemma_infix_loop_completes(
    s: Seq<char>,
    numbers: Seq<u64>,
    st: PState,
    precedence: Precedence,
    acc: Seq<Instruction>,
)
    requires
        aligned(s, st),
        precedence != Precedence::Lowest,
        !st.had_errors,
        no_unreadable(rest_kinds(s, st)),
        rd_loop(precedence, acc, rest_kinds(s, st)) is Some,
    ensures
        !infix_loop(s, numbers, st, precedence).had_errors,
    decreases measure(s, st), 6nat,
{
    let rk = rest_kinds(s, st);
    if precedence.rank() <= Precedence::of(st.current.kind).rank() {
        let op = st.current.kind;
        assert(rk[0] == op);
        assert(token_kinds(tokens_from(s, st.pos, true)) =~= rk.drop_first());
        assert(no_unreadable(rk.drop_first()));
        let st1 = advance(s, st);
        lemma_advance_measure(s, st);
        lemma_advance_grows(s, st);
        lemma_advance_rest(s, st);
        lemma_advance_clean(s, st);
        assert(rest_kinds(s, st1) == rk.drop_first());
        assert(rd_infix(op, rk.drop_first()) is Some) by {
            if op == TokenKind::Plus || op == TokenKind::Minus {
                if precedence.rank() <= 6 {
                    assert(rd_product_rest(acc, rk) == Some((acc, rk)));
                }
            }
        }
        let st2 = infix(s, numbers, st1);
        lemma_infix(s, numbers, st1);
        lemma_infix_reads(s, numbers, st1);
        lemma_infix_completes(s, numbers, st1);
        let (c, r) = rd_infix(op, rk.drop_first())->Some_0;
        assert(rest_kinds(s, st2) == r);
        lemma_product_shortens(rk.drop_first());
        lemma_unary_shortens(rk.drop_first());
        lemma_infix_clean(op, rk.drop_first());
        lemma_clean_keeps(rk.drop_first(), r);
        lemma_rest_len(s, st);
        lemma_rest_len(s, st2);
        lemma_loop_step(precedence, acc, rk);
        lemma_infix_loop_completes(s, numbers, st2, precedence, acc + c);
    }
}

proof fn lemma_prefix_completes(s: Seq<char>, numbers: Seq<u64>, st: PState)
    requires
        aligned(s, st),
        !st.had_errors,
        no_unreadable(rest_kinds(s, st)),
        rd_unary(seq![st.previous.kind] + rest_kinds(s, st)) is Some,
    ensures
        !prefix(s, numbers, st).had_errors,
    decreases measure_prev(s, st), 5nat,
{
    let ks = seq![st.previous.kind] + rest_kinds(s, st);
    assert(ks[0] == st.previous.kind);
    assert(ks.drop_first() =~= rest_kinds(s, st));
    match st.previous.kind {
        TokenKind::LeftParen => lemma_grouping_completes(s, numbers, st),
        TokenKind::Minus => lemma_unary_completes(s, numbers, st),
        _ => {},
    }
}

proof fn lemma_infix_completes(s: Seq<char>, numbers: Seq<u64>, st: PState)
    requires
        aligned(s, st),
        !st.had_errors,
        no_unreadable(rest_kinds(s, st)),
        rd_infix(st.previous.kind, rest_kinds(s, st)) is Some,
    ensures
        !infix(s, numbers, st).had_errors,
    decreases measure_prev(s, st), 5nat,
{
    match st.previous.kind {
        TokenKind::Minus | TokenKind::Plus | TokenKind::Star | TokenKind::Slash => lemma_binary_completes(
            s,
            numbers,
            st,
        ),
        _ => {},
    }
}

proof fn lemma_grouping_completes(s: Seq<char>, numbers: Seq<u64>, st: PState)
    requires
        aligned(s, st),
        !st.had_errors,
        no_unreadable(rest_kinds(s, st)),
        rd_unary(seq![TokenKind::LeftParen] + rest_kinds(s, st)) is Some,
    ensures
        !grouping(s, numbers, st).had_errors,
    decreases measure(s, st), 9nat,
{
    let rk = rest_kinds(s, st);
    let ks = seq![TokenKind::LeftParen] + rk;
    assert(ks.drop_first() =~= rk);
    let st1 = expression(s, numbers, st);
    lemma_expression(s, numbers, st);
    lemma_expression_reads(s, numbers, st);
    lemma_expression_completes(s, numbers, st);
    let (_c, r) = rd_sum(rk)->Some_0;
    assert(rest_kinds(s, st1) == r);
    assert(st1.current.kind == TokenKind::RightParen);
    lemma_sum_clean(rk);
    lemma_clean_keeps(rk, r);
    assert(token_kinds(tokens_from(s, st1.pos, true)) =~= r.drop_first());
    assert(no_unreadable(r.drop_first()));
    lemma_advance_clean(s, st1);
}

proof fn lemma_unary_completes(s: Seq<char>, numbers: Seq<u64>, st: PState)
    requires
        aligned(s, st),
        !st.had_errors,
        no_unreadable(rest_kinds(s, st)),
        rd_unary(seq![TokenKind::Minus] + rest_kinds(s, st)) is Some,
    ensures
        !unary(s, numbers, st).had_errors,
    decreases measure(s, st), 9nat,
{
    let ks = seq![TokenKind::Minus] + rest_kinds(s, st);
    assert(ks.drop_first() =~= rest_kinds(s, st));
    lemma_parse_precedence_completes(s, numbers, st, Precedence::Unary);
}

proof fn lemma_binary_completes(s: Seq<char>, numbers: Seq<u64>, st: PState)
    requires
        aligned(s, st),
        !st.had_errors,
        no_unreadable(rest_kinds(s, st)),
        st.previous.kind == TokenKind::Plus || st.previous.kind == TokenKind::Minus || st.previous.kind
            == TokenKind::Star || st.previous.kind == TokenKind::Slash,
        rd_infix(st.previous.kind, rest_kinds(s, st)) is Some,
    ensures
        !binary(s, numbers, st).had_errors,
    decreases measure(s, st), 9nat,
{
    let kind = st.previous.kind;
    lemma_parse_precedence_completes(s, numbers, st, Precedence::of(kind).higher());
}

} // verus!
