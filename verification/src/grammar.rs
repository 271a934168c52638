use vstd::prelude::*;

use crate::chunk::{constant_bytes, ChunkView, OpCode};
use crate::scanner::{
    lexeme, make_token, scan_step, slices_at_bytes, span_bytes, tokens_from, ScanError, Token, TokenKind,
};
use vstd::utf8::decode_utf8;
use crate::value::Value;

verus! {

/// Binding strength of operators, weakest first.
#[derive(Debug, Clone, Copy, PartialEq, Eq, Structural)]
pub enum Precedence {
    Lowest,
    Assignment,
    Or,
    And,
    Equality,
    Comparison,
    Term,
    Factor,
    Unary,
    Call,
    Primary,
}

impl Precedence {
    /// The place of the precedence in the order, from `None` at 0.
    pub open spec fn rank(self) -> nat {
        match self {
            Precedence::Lowest => 0,
            Precedence::Assignment => 1,
            Precedence::Or => 2,
            Precedence::And => 3,
            Precedence::Equality => 4,
            Precedence::Comparison => 5,
            Precedence::Term => 6,
            Precedence::Factor => 7,
            Precedence::Unary => 8,
            Precedence::Call => 9,
            Precedence::Primary => 10,
        }
    }

    /// The next stronger precedence (`Primary` stays `Primary`).
    pub open spec fn higher(self) -> Precedence {
        match self {
            Precedence::Lowest => Precedence::Assignment,
            Precedence::Assignment => Precedence::Or,
            Precedence::Or => Precedence::And,
            Precedence::And => Precedence::Equality,
            Precedence::Equality => Precedence::Comparison,
            Precedence::Comparison => Precedence::Term,
            Precedence::Term => Precedence::Factor,
            Precedence::Factor => Precedence::Unary,
            Precedence::Unary => Precedence::Call,
            Precedence::Call | Precedence::Primary => Precedence::Primary,
        }
    }

    /// The precedence of a token in infix position: `+` and `-` bind as
    /// terms, `*` and `/` as factors, any other token not at all.
    pub open spec fn of(kind: TokenKind) -> Precedence {
        match kind {
            TokenKind::Minus | TokenKind::Plus => Precedence::Term,
            TokenKind::Slash | TokenKind::Star => Precedence::Factor,
            _ => Precedence::Lowest,
        }
    }
}

/// What the parser writes into its chunk: an operation without operand, or
/// the loading of a constant.
#[derive(Debug, Clone, Copy, PartialEq, Eq, Structural)]
pub enum Emit {
    Op(OpCode),
    Load(Value),
}

/// The chunk that the writes `emits` (each with its line) produce, from an empty chunk.
pub open spec fn encode(emits: Seq<(Emit, usize)>) -> ChunkView
    decreases emits.len(),
{
    if emits.len() == 0 {
        ChunkView { code: Seq::empty(), constants: Seq::empty(), lines: Seq::empty() }
    } else {
        let before = encode(emits.drop_last());
        let (emit, line) = emits.last();
        match emit {
            Emit::Op(op) => ChunkView {
                code: before.code.push(op.code()),
                constants: before.constants,
                lines: before.lines.push(line),
            },
            Emit::Load(v) => {
                let bytes = constant_bytes(before.constants.len());
                ChunkView {
                    code: before.code + bytes,
                    constants: before.constants.push(v),
                    lines: before.lines + Seq::new(bytes.len(), |_j: int| line),
                }
            },
        }
    }
}

/// The messages of syntax errors.
#[derive(Debug, Clone, Copy, PartialEq, Eq, Structural)]
pub enum Message {
    Scan(ScanError),
    ExpectRightParen,
    ExpectExpression,
    ExpectEnd,
}

impl Message {
    pub open spec fn text(self) -> Seq<char> {
        match self {
            Message::Scan(e) => e.message_text(),
            Message::ExpectRightParen => "Expect ')' after expression."@,
            Message::ExpectExpression => "Expect expression."@,
            Message::ExpectEnd => "Expect end of expression."@,
        }
    }
}

/// Where a syntax error is reported: at the end of the source, at no text
/// (for a token the scanner could not make), or at a token's text.
pub enum LocationView {
    End,
    Nothing,
    At(Seq<char>),
}

/// A reported syntax error.
pub struct DiagnosticView {
    pub line: usize,
    pub location: LocationView,
    pub message: Message,
}

/// The text a report shows for `token`: the slice of the source at the
/// token's span (see `Token::slice`). Where the span does not slice the
/// source, slicing fails: the parse is then marked (`slice_fault`), the
/// public parsing functions leave such sources out, and the text held is
/// the characters the span covers.
pub open spec fn reported_text(source: Seq<char>, token: Token) -> Seq<char> {
    if slices_at_bytes(source, token) {
        decode_utf8(span_bytes(source, token))
    } else {
        lexeme(source, token)
    }
}

/// A report at `token` slices the source at the token's span: it shows a
/// token other than the end or one the scanner could not make.
pub open spec fn report_slices(token: Token) -> bool {
    token.kind != TokenKind::Eof && !(token.kind is Error)
}

/// The report of a syntax error at `token`.
pub open spec fn diagnostic_at(source: Seq<char>, token: Token, message: Message) -> DiagnosticView {
    DiagnosticView {
        line: token.span.line,
        location: if token.kind == TokenKind::Eof {
            LocationView::End
        } else if token.kind is Error {
            LocationView::Nothing
        } else {
            LocationView::At(reported_text(source, token))
        },
        message,
    }
}

/// The state of a parse: the scanner's position and the start of its last
/// token, the current and the previous token, which number literals they
/// are (counting number tokens from zero) and how many number tokens have
/// been read, what has been written, and the errors reported.
pub struct PState {
    pub pos: int,
    pub start: int,
    pub current: Token,
    pub previous: Token,
    pub current_number: int,
    pub previous_number: int,
    pub numbers_seen: int,
    pub emitted: Seq<(Emit, usize)>,
    pub had_errors: bool,
    pub panic_mode: bool,
    pub diagnostics: Seq<DiagnosticView>,
    pub slice_fault: bool,
}

/// The value of number literal `k`: its entry in `numbers`, or the bits of
/// zero where `numbers` has none.
pub open spec fn number_value(numbers: Seq<u64>, k: int) -> u64 {
    if 0 <= k < numbers.len() {
        numbers[k]
    } else {
        0
    }
}

/// The tokens left to read plus one for a current token that is not the end.
pub open spec fn measure(s: Seq<char>, st: PState) -> nat {
    tokens_from(s, st.pos, true).len() + if st.current.kind != TokenKind::Eof { 1nat } else { 0nat }
}

/// `measure` plus one for a previous token that is not the end.
pub open spec fn measure_prev(s: Seq<char>, st: PState) -> nat {
    measure(s, st) + if st.previous.kind != TokenKind::Eof { 1nat } else { 0nat }
}

/// Reports a syntax error at `token`.
pub open spec fn report(s: Seq<char>, st: PState, token: Token, message: Message) -> PState {
    PState {
        diagnostics: st.diagnostics.push(diagnostic_at(s, token, message)),
        had_errors: true,
        panic_mode: true,
        slice_fault: st.slice_fault || (report_slices(token) && !slices_at_bytes(s, token)),
        ..st
    }
}

/// Moves to the next token, reporting the tokens the scanner could not make.
pub open spec fn advance(s: Seq<char>, st: PState) -> PState
    decreases s.len() + 1 - st.pos,
{
    let (t, pos, start) = scan_step(s, st.pos, st.start, true);
    match t {
        Some(token) => {
            if token.kind is Error {
                let e = token.kind->Error_0;
                let reported = report(s, PState { pos, start, ..st }, token, Message::Scan(e));
                if st.pos < pos <= s.len() + 1 {
                    advance(s, reported)
                } else {
                    reported
                }
            } else {
                let is_number = token.kind == TokenKind::Number;
                PState {
                    pos,
                    start,
                    previous: st.current,
                    previous_number: st.current_number,
                    current: token,
                    current_number: if is_number { st.numbers_seen } else { st.current_number },
                    numbers_seen: if is_number { st.numbers_seen + 1 } else { st.numbers_seen },
                    ..st
                }
            }
        },
        None => PState {
            pos,
            start,
            previous: st.current,
            previous_number: st.current_number,
            current: make_token(s, TokenKind::Eof, start, pos),
            ..st
        },
    }
}

/// Writes `emit` for the line of the previous token.
pub open spec fn emit(st: PState, e: Emit) -> PState {
    PState { emitted: st.emitted.push((e, st.previous.span.line)), ..st }
}

/// Moves past the current token where it is of kind `kind`; else reports `message` at it.
pub open spec fn consume(s: Seq<char>, st: PState, kind: TokenKind, message: Message) -> PState {
    if st.current.kind == kind {
        advance(s, st)
    } else {
        report(s, st, st.current, message)
    }
}

/// The operation that a binary operator writes.
pub open spec fn binary_op(kind: TokenKind) -> OpCode {
    match kind {
        TokenKind::Plus => OpCode::Add,
        TokenKind::Minus => OpCode::Subtract,
        TokenKind::Star => OpCode::Multiply,
        _ => OpCode::Divide,
    }
}

/// An expression: operators at least as strong as assignment.
pub open spec fn expression(s: Seq<char>, numbers: Seq<u64>, st: PState) -> PState
    decreases measure(s, st), 8nat,
{
    parse_precedence(s, numbers, st, Precedence::Assignment)
}

/// Reads one operand, then every operator (with its right operand) that
/// binds at least as strongly as `precedence`.
pub open spec fn parse_precedence(s: Seq<char>, numbers: Seq<u64>, st: PState, precedence: Precedence) -> PState
    decreases measure(s, st), 7nat,
{
    let st1 = advance(s, st);
    proof {
        lemma_advance_measure(s, st);
    }
    let st2 = prefix(s, numbers, st1);
    if measure(s, st2) <= measure(s, st) {
        infix_loop(s, numbers, st2, precedence)
    } else {
        st2
    }
}

/// The operators that follow an operand, while they bind at least as
/// strongly as `precedence`.
pub open spec fn infix_loop(s: Seq<char>, numbers: Seq<u64>, st: PState, precedence: Precedence) -> PState
    decreases measure(s, st), 6nat,
{
    if precedence.rank() <= Precedence::of(st.current.kind).rank() {
        let st1 = advance(s, st);
        proof {
            lemma_advance_measure(s, st);
        }
        let st2 = infix(s, numbers, st1);
        if measure(s, st2) < measure(s, st) {
            infix_loop(s, numbers, st2, precedence)
        } else {
            st2
        }
    } else {
        st
    }
}

/// An operand, by the token just read.
pub open spec fn prefix(s: Seq<char>, numbers: Seq<u64>, st: PState) -> PState
    decreases measure_prev(s, st), 5nat,
{
    match st.previous.kind {
        TokenKind::LeftParen => grouping(s, numbers, st),
        TokenKind::Minus => unary(s, numbers, st),
        TokenKind::Number => load_number(s, numbers, st),
        _ => report(s, st, st.previous, Message::ExpectExpression),
    }
}

/// The loading of the number literal just read. Its value is read from its
/// slice of the source (see `Token::slice`), so a span that does not slice
/// the source marks the parse (`slice_fault`).
pub open spec fn load_number(s: Seq<char>, numbers: Seq<u64>, st: PState) -> PState {
    let loaded = emit(st, Emit::Load(Value::Number(number_value(numbers, st.previous_number))));
    PState { slice_fault: st.slice_fault || !slices_at_bytes(s, st.previous), ..loaded }
}

/// An operator after an operand, by the token just read.
pub open spec fn infix(s: Seq<char>, numbers: Seq<u64>, st: PState) -> PState
    decreases measure_prev(s, st), 5nat,
{
    match st.previous.kind {
        TokenKind::Minus | TokenKind::Plus | TokenKind::Star | TokenKind::Slash => binary(s, numbers, st),
        _ => report(s, st, st.previous, Message::ExpectExpression),
    }
}

/// A parenthesized expression, after its `(`.
pub open spec fn grouping(s: Seq<char>, numbers: Seq<u64>, st: PState) -> PState
    decreases measure(s, st), 9nat,
{
    let st1 = expression(s, numbers, st);
    consume(s, st1, TokenKind::RightParen, Message::ExpectRightParen)
}

/// A negation, after its `-`.
pub open spec fn unary(s: Seq<char>, numbers: Seq<u64>, st: PState) -> PState
    decreases measure(s, st), 9nat,
{
    let st1 = parse_precedence(s, numbers, st, Precedence::Unary);
    emit(st1, Emit::Op(OpCode::Negate))
}

/// The right operand of a binary operator, after the operator, then the operation.
pub open spec fn binary(s: Seq<char>, numbers: Seq<u64>, st: PState) -> PState
    decreases measure(s, st), 9nat,
{
    let kind = st.previous.kind;
    let st1 = parse_precedence(s, numbers, st, Precedence::of(kind).higher());
    emit(st1, Emit::Op(binary_op(kind)))
}

/// The state a parse of `source` starts in.
pub open spec fn initial_state(s: Seq<char>) -> PState {
    let eof = make_token(s, TokenKind::Eof, 0, 0);
    PState {
        pos: 0,
        start: 0,
        current: eof,
        previous: eof,
        current_number: 0,
        previous_number: 0,
        numbers_seen: 0,
        emitted: Seq::empty(),
        had_errors: false,
        panic_mode: false,
        diagnostics: Seq::empty(),
        slice_fault: false,
    }
}

/// A parse from the state `st`: it moves to the next token, reads one
/// expression, then the end of the source; where no error has been reported,
/// a return follows.
pub open spec fn parse_from(s: Seq<char>, numbers: Seq<u64>, st: PState) -> PState {
    let fin = consume(s, expression(s, numbers, advance(s, st)), TokenKind::Eof, Message::ExpectEnd);
    if !fin.had_errors {
        emit(fin, Emit::Op(OpCode::Return))
    } else {
        fin
    }
}

/// A whole parse of a source, from its start.
pub open spec fn parse_source(s: Seq<char>, numbers: Seq<u64>) -> PState {
    parse_from(s, numbers, initial_state(s))
}

// ---------------------------------------------------------------------------
// Facts about the token stream that the parse's measure rests on.
// ---------------------------------------------------------------------------

/// A call of the skipping scanner that hands out a token leaves one token fewer;
/// one that hands out none leaves none.
pub proof fn lemma_scan_step_remaining(s: Seq<char>, pos: int, start: int)
    ensures
        ({
            let (t, end, _st) = scan_step(s, pos, start, true);
            &&& t is Some ==> tokens_from(s, end, true).len() + 1 == tokens_from(s, pos, true).len()
            &&& t is None ==> tokens_from(s, pos, true).len() == 0 && tokens_from(s, end, true).len() == 0
            &&& t matches Some(tok) ==> tok.kind != TokenKind::Eof
            &&& pos <= end
            &&& t is Some ==> pos < end <= s.len() + 1
        }),
{
    crate::scanner::lemma_scan_step_forward(s, pos, start, pos, true);
    crate::scanner::lemma_scan_step_kind(s, pos, start, true);
    let (t, end, _st) = scan_step(s, pos, start, true);
    if t is Some {
        if end > s.len() {
            assert(scan_step(s, end, end, true).0 is None);
            assert(tokens_from(s, end, true) =~= Seq::<Token>::empty());
        }
    } else {
        assert(scan_step(s, end, end, true).0 is None);
        assert(scan_step(s, pos, pos, true).0 is None);
    }
}

/// Moving to the next token never raises the measure, and lowers it when the
/// current token is not the end.
pub proof fn lemma_advance_measure(s: Seq<char>, st: PState)
    ensures
        measure(s, advance(s, st)) <= measure(s, st),
        st.current.kind != TokenKind::Eof ==> measure(s, advance(s, st)) < measure(s, st),
        advance(s, st).previous == st.current,
        measure_prev(s, advance(s, st)) <= measure(s, st),
        advance(s, st).pos >= st.pos,
        advance(s, st).emitted == st.emitted,
        st.had_errors ==> advance(s, st).had_errors,
    decreases s.len() + 1 - st.pos,
{
    lemma_scan_step_remaining(s, st.pos, st.start);
    let (t, pos, start) = scan_step(s, st.pos, st.start, true);
    match t {
        Some(token) => {
            if token.kind is Error {
                let reported = report(s, PState { pos, start, ..st }, token, Message::Scan(token.kind->Error_0));
                if st.pos < pos <= s.len() + 1 {
                    lemma_advance_measure(s, reported);
                }
            }
        },
        None => {},
    }
}

} // verus!

verus! {

/// Every token takes at least one character, so no more tokens are left
/// than characters.
pub proof fn lemma_tokens_from_len(s: Seq<char>, pos: int, skip: bool)
    requires
        0 <= pos <= s.len(),
    ensures
        tokens_from(s, pos, skip).len() <= s.len() - pos,
    decreases s.len() - pos,
{
    crate::scanner::lemma_scan_step_forward(s, pos, pos, pos, skip);
    let (t, end, _st) = scan_step(s, pos, pos, skip);
    if t is Some && pos < end <= s.len() {
        lemma_tokens_from_len(s, end, skip);
    }
}

} // verus!

verus! {

/// A parse that reports no error ends its code with a return.
pub proof fn law_success_ends_with_return(s: Seq<char>, numbers: Seq<u64>)
    ensures
        !parse_source(s, numbers).had_errors ==> parse_source(s, numbers).emitted.len() > 0
            && parse_source(s, numbers).emitted.last().0 == Emit::Op(OpCode::Return),
{
}

/// Each precedence but the strongest has a next one, one place up the order.
pub proof fn law_higher_is_next(p: Precedence)
    ensures
        p != Precedence::Primary ==> p.higher().rank() == p.rank() + 1,
        p == Precedence::Primary ==> p.higher() == Precedence::Primary,
{
}

} // verus!
