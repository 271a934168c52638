use vstd::prelude::*;

use crate::chunk::{operand_width, Chunk, OpCode};
use crate::program::plain_ops;
use crate::grammar::{
    advance, binary, consume, diagnostic_at, load_number, reported_text, emit, encode, expression, grouping, infix, infix_loop,
    initial_state, lemma_advance_measure, lemma_scan_step_remaining, lemma_tokens_from_len, measure, measure_prev,
    number_value, parse_from, parse_precedence, prefix, report, unary,
    DiagnosticView, Emit, LocationView, Message, PState, Precedence,
};
use crate::scanner::{slices_at_bytes, token_end, Scanner, Token, TokenKind};
use vstd::string::{StringExecFns, StringSliceAdditionalSpecFns};
use crate::text::{chars_of, decimal, push_char, push_decimal, push_str};
use crate::value::Value;

verus! {

impl Precedence {
    /// The next stronger precedence (`Primary` stays `Primary`).
    pub fn one_higher(&self) -> (p: Self)
        ensures
            p == self.higher(),
    {
        match self {
            Self::Lowest => Self::Assignment,
            Self::Assignment => Self::Or,
            Self::Or => Self::And,
            Self::And => Self::Equality,
            Self::Equality => Self::Comparison,
            Self::Comparison => Self::Term,
            Self::Term => Self::Factor,
            Self::Factor => Self::Unary,
            Self::Unary => Self::Call,
            Self::Call | Self::Primary => Self::Primary,
        }
    }

    /// The place of the precedence in the order, from `Lowest` at 0.
    pub fn level(&self) -> (n: u8)
        ensures
            n == self.rank(),
    {
        match self {
            Self::Lowest => 0,
            Self::Assignment => 1,
            Self::Or => 2,
            Self::And => 3,
            Self::Equality => 4,
            Self::Comparison => 5,
            Self::Term => 6,
            Self::Factor => 7,
            Self::Unary => 8,
            Self::Call => 9,
            Self::Primary => 10,
        }
    }

    /// Whether `self` binds no more strongly than `other`.
    pub fn at_most(&self, other: &Self) -> (b: bool)
        ensures
            b == (self.rank() <= other.rank()),
    {
        self.level() <= other.level()
    }

    /// The precedence of a token in infix position.
    pub fn from_kind(value: TokenKind) -> (p: Self)
        ensures
            p == Precedence::of(value),
    {
        match value {
            TokenKind::Minus | TokenKind::Plus => Self::Term,
            TokenKind::Slash | TokenKind::Star => Self::Factor,
            _ => Self::Lowest,
        }
    }
}

impl Message {
    pub fn message(&self) -> (m: &'static str)
        ensures
            m@ == self.text(),
    {
        match self {
            Message::Scan(e) => e.message(),
            Message::ExpectRightParen => "Expect ')' after expression.",
            Message::ExpectExpression => "Expect expression.",
            Message::ExpectEnd => "Expect end of expression.",
        }
    }
}

/// Where a syntax error is reported.
#[derive(Debug)]
pub enum ErrorLocation {
    End,
    Nothing,
    At(String),
}

/// A reported syntax error.
#[derive(Debug)]
pub struct Diagnostic {
    pub line: usize,
    pub location: ErrorLocation,
    pub message: Message,
}

impl View for Diagnostic {
    type V = DiagnosticView;

    open spec fn view(&self) -> DiagnosticView {
        DiagnosticView {
            line: self.line,
            location: match self.location {
                ErrorLocation::End => LocationView::End,
                ErrorLocation::Nothing => LocationView::Nothing,
                ErrorLocation::At(text) => LocationView::At(text@),
            },
            message: self.message,
        }
    }
}

/// The report line of a syntax error: `[line N] Error`, then ` at end`,
/// nothing, or ` at 'TEXT'`, then `: ` and the message.
pub open spec fn diagnostic_text(d: DiagnosticView) -> Seq<char> {
    "[line "@ + decimal(d.line as nat) + "] Error"@ + match d.location {
        LocationView::End => " at end"@,
        LocationView::Nothing => Seq::empty(),
        LocationView::At(text) => " at '"@ + text + "'"@,
    } + ": "@ + d.message.text()
}

impl Diagnostic {
    /// The report line of the error.
    pub fn to_string(&self) -> (s: String)
        ensures
            s@ == diagnostic_text(self@),
    {
        let mut s = String::new();
        push_str(&mut s, "[line ");
        push_decimal(&mut s, self.line);
        push_str(&mut s, "] Error");
        let ghost before = s@;
        match &self.location {
            ErrorLocation::End => push_str(&mut s, " at end"),
            ErrorLocation::Nothing => {
                assert(s@ =~= before + Seq::<char>::empty());
            },
            ErrorLocation::At(text) => {
                push_str(&mut s, " at '");
                push_str(&mut s, text.as_str());
                push_str(&mut s, "'");
            },
        }
        push_str(&mut s, ": ");
        push_str(&mut s, self.message.message());
        s
    }
}

/// The error a failed parse gives.
#[derive(Debug)]
pub struct ParserError;

/// A parser of expressions into bytecode. Number literals get their values
/// from `numbers`: literal `k` of the source (counting number tokens from
/// zero) loads `numbers[k]`.
pub struct Parser {
    source: Vec<char>,
    text: String,
    scanner: Scanner,
    current: Token,
    previous: Token,
    current_number: usize,
    previous_number: usize,
    numbers_seen: usize,
    numbers: Vec<u64>,
    panic_mode: bool,
    had_errors: bool,
    slice_fault: bool,
    chunk: Chunk,
    emitted: Ghost<Seq<(Emit, usize)>>,
    diagnostics: Vec<Diagnostic>,
}

/// A token whose text can be read from the source: the end, a token the
/// scanner could not make, or one that lies within the source.
pub open spec fn readable(s: Seq<char>, t: Token) -> bool {
    t.kind == TokenKind::Eof || t.kind is Error || token_end(t) <= s.len()
}

/// The writes plus the measure of a state.
pub open spec fn budget(s: Seq<char>, st: PState) -> nat {
    st.emitted.len() + measure(s, st)
}

/// The writes plus the measure of a state, counting a previous token that is not the end.
pub open spec fn budget_prev(s: Seq<char>, st: PState) -> nat {
    st.emitted.len() + measure_prev(s, st)
}

/// What a parse from the state `st` of a parser of `s` gives (see
/// `parse_from`): `Ok` exactly where no syntax error has been reported, with
/// the chunk of everything written, after which the parser starts a new
/// chunk; else `Err`, the parser left in the state the parse ends in.
pub open spec fn parsed(s: Seq<char>, numbers: Seq<u64>, st: PState, r: Result<Chunk, ParserError>, after: Parser) -> bool {
    let fin = parse_from(s, numbers, st);
    &&& after.wf()
    &&& after.source() == s
    &&& after.numbers() == numbers
    &&& budget(s, after.state()) <= s.len() + 1
    &&& (r is Ok <==> !fin.had_errors)
    &&& (r matches Ok(c) ==> c.wf() && c@ == encode(fin.emitted) && after.state() == PState {
        emitted: Seq::empty(),
        ..fin
    })
    &&& (r is Err ==> after.state() == fin)
    &&& plain_ops(fin.emitted)
    &&& (fin.had_errors <==> fin.diagnostics.len() > 0)
}

impl Parser {
    /// The characters of the source.
    pub closed spec fn source(&self) -> Seq<char> {
        self.source@
    }

    /// The values of the number literals.
    pub closed spec fn numbers(&self) -> Seq<u64> {
        self.numbers@
    }

    /// The state of the parse.
    pub closed spec fn state(&self) -> PState {
        PState {
            pos: self.scanner.position(),
            start: self.scanner.token_start(),
            current: self.current,
            previous: self.previous,
            current_number: self.current_number as int,
            previous_number: self.previous_number as int,
            numbers_seen: self.numbers_seen as int,
            emitted: self.emitted@,
            had_errors: self.had_errors,
            panic_mode: self.panic_mode,
            slice_fault: self.slice_fault,
            diagnostics: self.diagnostics@.map_values(|d: Diagnostic| d@),
        }
    }

    pub closed spec fn wf(&self) -> bool {
        &&& self.scanner.wf()
        &&& self.scanner.skips()
        &&& self.scanner.source() == self.source@
        &&& self.source@.len() * 4 + 64 < usize::MAX
        &&& self.text@ == self.source@
        &&& self.chunk.wf()
        &&& self.chunk@ == encode(self.emitted@)
        &&& self.chunk@.code.len() <= 4 * self.emitted@.len()
        &&& plain_ops(self.emitted@)
        &&& self.had_errors == (self.diagnostics@.len() > 0)
        &&& self.numbers_seen <= self.scanner.position()
        &&& readable(self.source@, self.current)
        &&& readable(self.source@, self.previous)
    }

    /// A parser of `source`, at its start. Sources of a quarter of
    /// `usize::MAX` characters or more are left out: the code of a source may
    /// take up to four bytes for each of its characters, and the code's
    /// length is a `usize`.
    pub fn new(source: &str, numbers: Vec<u64>) -> (p: Self)
        requires
            source@.len() * 4 + 64 < usize::MAX,
        ensures
            p.wf(),
            p.source() == source@,
            p.numbers() == numbers@,
            p.state() == initial_state(source@),
            budget(p.source(), p.state()) <= p.source().len() + 1,
    {
        let scanner = Scanner::new(source).skip_ignorable();
        let eof = scanner.eof();
        let p = Self {
            source: chars_of(source),
            text: String::from_str(source),
            scanner,
            current: eof,
            previous: eof,
            current_number: 0,
            previous_number: 0,
            numbers_seen: 0,
            numbers,
            panic_mode: false,
            had_errors: false,
            slice_fault: false,
            chunk: Chunk::new(),
            emitted: Ghost(Seq::empty()),
            diagnostics: Vec::new(),
        };
        proof {
            lemma_tokens_from_len(source@, 0, true);
            assert(p.diagnostics@.map_values(|d: Diagnostic| d@) =~= Seq::<DiagnosticView>::empty());
            assert(plain_ops(p.emitted@));
            assert(encode(Seq::<(Emit, usize)>::empty()).code =~= p.chunk@.code);
        }
        p
    }

    /// The syntax errors reported so far, in order.
    pub fn diagnostics(&self) -> (d: &Vec<Diagnostic>)
        ensures
            d@.map_values(|x: Diagnostic| x@) == self.state().diagnostics,
    {
        &self.diagnostics
    }

    /// Whether the token's span slices the source (see `Token::slice`).
    fn slices(&self, token: &Token) -> (b: bool)
        requires
            self.wf(),
            token_end(*token) <= self.source@.len(),
        ensures
            b == slices_at_bytes(self.source@, *token),
    {
        let start = token.span.start;
        let end = token.span.start + token.span.lenth;
        let whole = self.text.as_str();
        let nbytes = whole.as_bytes().len();
        end <= nbytes && whole.is_char_boundary(start) && whole.is_char_boundary(end)
    }

    /// The text a report shows for `token` (see `reported_text`).
    fn token_text(&self, token: &Token) -> (text: String)
        requires
            self.wf(),
            token_end(*token) <= self.source@.len(),
        ensures
            text@ == reported_text(self.source@, *token),
    {
        if self.slices(token) {
            return String::from_str(token.slice(self.text.as_str()));
        }
        let start = token.span.start;
        let end = token.span.start + token.span.lenth;
        let mut text = String::new();
        let mut i = start;
        while i < end
            invariant
                start <= i <= end,
                end <= self.source@.len(),
                start == token.span.start,
                end == token_end(*token),
                text@ == self.source@.subrange(start as int, i as int),
            decreases end - i,
        {
            push_char(&mut text, self.source[i]);
            i = i + 1;
            assert(text@ =~= self.source@.subrange(start as int, i as int));
        }
        text
    }

    fn error_at(&mut self, token: Token, message: Message)
        requires
            old(self).wf(),
            readable(old(self).source(), token),
        ensures
            final(self).wf(),
            final(self).source() == old(self).source(),
            final(self).numbers() == old(self).numbers(),
            final(self).state() == report(old(self).source(), old(self).state(), token, message),
    {
        let location = if token.kind == TokenKind::Eof {
            ErrorLocation::End
        } else if let TokenKind::Error(_) = token.kind {
            ErrorLocation::Nothing
        } else {
            if !self.slices(&token) {
                self.slice_fault = true;
            }
            ErrorLocation::At(self.token_text(&token))
        };
        let ghost old_diagnostics = self.diagnostics@;
        let d = Diagnostic { line: token.span.line, location, message };
        proof {
            assert(d@ == diagnostic_at(self.source@, token, message));
        }
        self.diagnostics.push(d);
        self.had_errors = true;
        self.panic_mode = true;
        proof {
            assert(self.diagnostics@.map_values(|x: Diagnostic| x@) =~= old_diagnostics.map_values(
                |x: Diagnostic| x@,
            ).push(diagnostic_at(self.source@, token, message)));
        }
    }

    fn error_at_current(&mut self, message: Message)
        requires
            old(self).wf(),
        ensures
            final(self).wf(),
            final(self).source() == old(self).source(),
            final(self).numbers() == old(self).numbers(),
            final(self).state() == report(old(self).source(), old(self).state(), old(self).state().current, message),
    {
        let token = self.current;
        self.error_at(token, message);
    }

    fn error(&mut self, message: Message)
        requires
            old(self).wf(),
        ensures
            final(self).wf(),
            final(self).source() == old(self).source(),
            final(self).numbers() == old(self).numbers(),
            final(self).state() == report(old(self).source(), old(self).state(), old(self).state().previous, message),
    {
        let token = self.previous;
        self.error_at(token, message);
    }

    /// Moves to the next token; the tokens the scanner could not make are
    /// reported on the way.
    pub fn advance(&mut self)
        requires
            old(self).wf(),
        ensures
            final(self).wf(),
            final(self).source() == old(self).source(),
            final(self).numbers() == old(self).numbers(),
            final(self).state() == advance(old(self).source(), old(self).state()),
            budget(final(self).source(), final(self).state()) <= budget(old(self).source(), old(self).state()),
    {
        let ghost s = self.source@;
        proof {
            lemma_advance_measure(s, self.state());
        }
        loop
            invariant
                self.wf(),
                self.source@ == s,
                s == old(self).source(),
                self.numbers@ == old(self).numbers(),
                advance(s, self.state()) == advance(s, old(self).state()),
                measure(s, advance(s, old(self).state())) <= measure(s, old(self).state()),
                advance(s, old(self).state()).emitted == old(self).state().emitted,
            decreases s.len() + 1 - self.scanner.position(),
        {
            let ghost st = self.state();
            proof {
                lemma_scan_step_remaining(s, st.pos, st.start);
                crate::scanner::lemma_scan_step_token(s, st.pos, st.start, true);
            }
            match self.scanner.next() {
                Some(token) => {
                    match token.kind {
                        TokenKind::Error(e) => {
                            self.error_at(token, Message::Scan(e));
                        },
                        _ => {
                            self.previous = self.current;
                            self.previous_number = self.current_number;
                            if token.kind == TokenKind::Number {
                                self.current_number = self.numbers_seen;
                                self.numbers_seen = self.numbers_seen + 1;
                            }
                            self.current = token;
                            return;
                        },
                    }
                },
                None => {
                    self.previous = self.current;
                    self.previous_number = self.current_number;
                    self.current = self.scanner.eof();
                    return;
                },
            }
        }
    }

    fn emit_byte(&mut self, op: OpCode)
        requires
            old(self).wf(),
            operand_width(op) == 0,
            old(self).state().emitted.len() <= old(self).source().len() + 1,
        ensures
            final(self).wf(),
            final(self).source() == old(self).source(),
            final(self).numbers() == old(self).numbers(),
            final(self).state() == emit(old(self).state(), Emit::Op(op)),
    {
        let line = self.previous.span.line;
        self.chunk.write(op.byte(), line);
        self.emitted = Ghost(self.emitted@.push((Emit::Op(op), line)));
        proof {
            assert(self.emitted@.drop_last() =~= old(self).emitted@);
            assert forall|i: int| 0 <= i < self.emitted@.len() implies (#[trigger] self.emitted@[i].0 matches Emit::Op(
                o,
            ) ==> operand_width(o) == 0) by {
                if i < old(self).emitted@.len() {
                    assert(self.emitted@[i] == old(self).emitted@[i]);
                }
            }
        }
    }

    fn emit_return(&mut self)
        requires
            old(self).wf(),
            old(self).state().emitted.len() <= old(self).source().len() + 1,
        ensures
            final(self).wf(),
            final(self).source() == old(self).source(),
            final(self).numbers() == old(self).numbers(),
            final(self).state() == emit(old(self).state(), Emit::Op(OpCode::Return)),
    {
        self.emit_byte(OpCode::Return);
    }

    fn emit_constant(&mut self, value: Value)
        requires
            old(self).wf(),
            old(self).state().emitted.len() <= old(self).source().len() + 1,
        ensures
            final(self).wf(),
            final(self).source() == old(self).source(),
            final(self).numbers() == old(self).numbers(),
            final(self).state() == emit(old(self).state(), Emit::Load(value)),
    {
        let line = self.previous.span.line;
        self.chunk.write_constant(value, line);
        self.emitted = Ghost(self.emitted@.push((Emit::Load(value), line)));
        proof {
            assert(self.emitted@.drop_last() =~= old(self).emitted@);
            assert forall|i: int| 0 <= i < self.emitted@.len() implies (#[trigger] self.emitted@[i].0 matches Emit::Op(
                o,
            ) ==> operand_width(o) == 0) by {
                if i < old(self).emitted@.len() {
                    assert(self.emitted@[i] == old(self).emitted@[i]);
                }
            }
            crate::chunk::lemma_le_bytes_len(old(self).chunk@.constants.len(), 3);
            let e = encode(self.emitted@);
            assert(e.code =~= self.chunk@.code);
            assert(e.constants =~= self.chunk@.constants);
            assert(e.lines =~= self.chunk@.lines);
        }
    }

    fn consume(&mut self, kind: TokenKind, message: Message)
        requires
            old(self).wf(),
        ensures
            final(self).wf(),
            final(self).source() == old(self).source(),
            final(self).numbers() == old(self).numbers(),
            final(self).state() == consume(old(self).source(), old(self).state(), kind, message),
    {
        if self.current.kind == kind {
            self.advance();
            return;
        }
        self.error_at_current(message);
    }

    fn number(&mut self)
        requires
            old(self).wf(),
            old(self).state().emitted.len() <= old(self).source().len() + 1,
            old(self).state().previous.kind == TokenKind::Number,
        ensures
            final(self).wf(),
            final(self).source() == old(self).source(),
            final(self).numbers() == old(self).numbers(),
            final(self).state() == load_number(old(self).source(), old(self).numbers(), old(self).state()),
    {
        let value = if self.previous_number < self.numbers.len() {
            self.numbers[self.previous_number]
        } else {
            0
        };
        let token = self.previous;
        let sliced = self.slices(&token);
        self.emit_constant(Value::Number(value));
        if !sliced {
            self.slice_fault = true;
        }
    }

    fn grouping(&mut self)
        requires
            old(self).wf(),
            budget(old(self).source(), old(self).state()) <= old(self).source().len() + 1,
        ensures
            final(self).wf(),
            final(self).source() == old(self).source(),
            final(self).numbers() == old(self).numbers(),
            final(self).state() == grouping(old(self).source(), old(self).numbers(), old(self).state()),
            measure(final(self).source(), final(self).state()) <= measure(old(self).source(), old(self).state()),
            budget(final(self).source(), final(self).state()) <= budget(old(self).source(), old(self).state()),
        decreases measure(old(self).source(), old(self).state()), 9nat,
    {
        self.expression();
        let ghost st = self.state();
        proof {
            lemma_advance_measure(self.source@, st);
        }
        self.consume(TokenKind::RightParen, Message::ExpectRightParen);
    }

    fn unary(&mut self)
        requires
            old(self).wf(),
            old(self).state().previous.kind != TokenKind::Eof,
            budget(old(self).source(), old(self).state()) <= old(self).source().len(),
        ensures
            final(self).wf(),
            final(self).source() == old(self).source(),
            final(self).numbers() == old(self).numbers(),
            final(self).state() == unary(old(self).source(), old(self).numbers(), old(self).state()),
            measure(final(self).source(), final(self).state()) <= measure(old(self).source(), old(self).state()),
            budget(final(self).source(), final(self).state()) <= budget(old(self).source(), old(self).state()) + 1,
        decreases measure(old(self).source(), old(self).state()), 9nat,
    {
        self.parse_precedence(Precedence::Unary);
        self.emit_byte(OpCode::Negate);
    }

    fn binary(&mut self)
        requires
            old(self).wf(),
            old(self).state().previous.kind != TokenKind::Eof,
            budget(old(self).source(), old(self).state()) <= old(self).source().len(),
        ensures
            final(self).wf(),
            final(self).source() == old(self).source(),
            final(self).numbers() == old(self).numbers(),
            final(self).state() == binary(old(self).source(), old(self).numbers(), old(self).state()),
            measure(final(self).source(), final(self).state()) <= measure(old(self).source(), old(self).state()),
            budget(final(self).source(), final(self).state()) <= budget(old(self).source(), old(self).state()) + 1,
        decreases measure(old(self).source(), old(self).state()), 9nat,
    {
        let operation_kind = self.previous.kind;
        let precedence = Precedence::from_kind(operation_kind);
        self.parse_precedence(precedence.one_higher());
        match operation_kind {
            TokenKind::Plus => self.emit_byte(OpCode::Add),
            TokenKind::Minus => self.emit_byte(OpCode::Subtract),
            TokenKind::Star => self.emit_byte(OpCode::Multiply),
            _ => self.emit_byte(OpCode::Divide),
        }
    }

    fn prefix(&mut self)
        requires
            old(self).wf(),
            budget_prev(old(self).source(), old(self).state()) <= old(self).source().len() + 1,
        ensures
            final(self).wf(),
            final(self).source() == old(self).source(),
            final(self).numbers() == old(self).numbers(),
            final(self).state() == prefix(old(self).source(), old(self).numbers(), old(self).state()),
            measure(final(self).source(), final(self).state()) <= measure(old(self).source(), old(self).state()),
            budget(final(self).source(), final(self).state()) <= budget_prev(old(self).source(), old(self).state()),
        decreases measure_prev(old(self).source(), old(self).state()), 5nat,
    {
        match self.previous.kind {
            TokenKind::LeftParen => self.grouping(),
            TokenKind::Minus => self.unary(),
            TokenKind::Number => self.number(),
            _ => self.error(Message::ExpectExpression),
        }
    }

    fn infix(&mut self)
        requires
            old(self).wf(),
            budget_prev(old(self).source(), old(self).state()) <= old(self).source().len() + 1,
        ensures
            final(self).wf(),
            final(self).source() == old(self).source(),
            final(self).numbers() == old(self).numbers(),
            final(self).state() == infix(old(self).source(), old(self).numbers(), old(self).state()),
            measure(final(self).source(), final(self).state()) <= measure(old(self).source(), old(self).state()),
            budget(final(self).source(), final(self).state()) <= budget_prev(old(self).source(), old(self).state()),
        decreases measure_prev(old(self).source(), old(self).state()), 5nat,
    {
        match self.previous.kind {
            TokenKind::Minus | TokenKind::Plus | TokenKind::Star | TokenKind::Slash => self.binary(),
            _ => self.error(Message::ExpectExpression),
        }
    }

    fn parse_precedence(&mut self, precedence: Precedence)
        requires
            old(self).wf(),
            precedence != Precedence::Lowest,
            budget(old(self).source(), old(self).state()) <= old(self).source().len() + 1,
        ensures
            final(self).wf(),
            final(self).source() == old(self).source(),
            final(self).numbers() == old(self).numbers(),
            final(self).state() == parse_precedence(old(self).source(), old(self).numbers(), old(self).state(), precedence),
            measure(final(self).source(), final(self).state()) <= measure(old(self).source(), old(self).state()),
            budget(final(self).source(), final(self).state()) <= budget(old(self).source(), old(self).state()),
        decreases measure(old(self).source(), old(self).state()), 7nat,
    {
        let ghost s = self.source@;
        let ghost nums = self.numbers@;
        let ghost st0 = self.state();
        proof {
            lemma_advance_measure(s, st0);
        }
        self.advance();
        self.prefix();
        let ghost st2 = self.state();
        while precedence.at_most(&Precedence::from_kind(self.current.kind))
            invariant
                self.wf(),
                self.source@ == s,
                self.numbers@ == nums,
                s == old(self).source(),
                nums == old(self).numbers(),
                precedence != Precedence::Lowest,
                st0 == old(self).state(),
                measure(s, st2) <= measure(s, st0),
                parse_precedence(s, nums, st0, precedence) == infix_loop(s, nums, st2, precedence),
                infix_loop(s, nums, self.state(), precedence) == infix_loop(s, nums, st2, precedence),
                measure(s, self.state()) <= measure(s, st0),
                budget(s, self.state()) <= budget(s, st0),
                budget(s, st0) <= s.len() + 1,
            decreases measure(s, self.state()),
        {
            let ghost st = self.state();
            proof {
                lemma_advance_measure(s, st);
            }
            self.advance();
            self.infix();
        }
    }

    fn expression(&mut self)
        requires
            old(self).wf(),
            budget(old(self).source(), old(self).state()) <= old(self).source().len() + 1,
        ensures
            final(self).wf(),
            final(self).source() == old(self).source(),
            final(self).numbers() == old(self).numbers(),
            final(self).state() == expression(old(self).source(), old(self).numbers(), old(self).state()),
            measure(final(self).source(), final(self).state()) <= measure(old(self).source(), old(self).state()),
            budget(final(self).source(), final(self).state()) <= budget(old(self).source(), old(self).state()),
        decreases measure(old(self).source(), old(self).state()), 8nat,
    {
        self.parse_precedence(Precedence::Assignment);
    }

    /// Parses, from the parser's state, one expression followed by the end
    /// of the source (see `parse_from`). Where no syntax error has been
    /// reported, the parser hands out its chunk, which holds the code written
    /// so far followed by a return, and starts a new one; else the parse
    /// fails. Sources on which the parse would slice the source at a span
    /// that does not slice it are left out (see `reported_text`).
    pub fn parse(&mut self) -> (r: Result<Chunk, ParserError>)
        requires
            old(self).wf(),
            budget(old(self).source(), old(self).state()) <= old(self).source().len() + 1,
            !parse_from(old(self).source(), old(self).numbers(), old(self).state()).slice_fault,
        ensures
            parsed(old(self).source(), old(self).numbers(), old(self).state(), r, *final(self)),
    {
        self.parse_marked()
    }

    /// `parse`, on every source: where the parse slices the source at a span
    /// that does not slice it, the parser is marked (`slice_fault`).
    pub(crate) fn parse_marked(&mut self) -> (r: Result<Chunk, ParserError>)
        requires
            old(self).wf(),
            budget(old(self).source(), old(self).state()) <= old(self).source().len() + 1,
        ensures
            parsed(old(self).source(), old(self).numbers(), old(self).state(), r, *final(self)),
    {
        let ghost s = self.source@;
        proof {
            lemma_advance_measure(s, self.state());
        }
        self.advance();
        self.expression();
        proof {
            lemma_advance_measure(s, self.state());
        }
        self.consume(TokenKind::Eof, Message::ExpectEnd);
        if !self.had_errors {
            self.emit_return();
            let mut chunk = Chunk::new();
            std::mem::swap(&mut chunk, &mut self.chunk);
            self.emitted = Ghost(Seq::empty());
            proof {
                assert(plain_ops(self.emitted@));
                assert(encode(Seq::<(Emit, usize)>::empty()).code =~= self.chunk@.code);
            }
            return Ok(chunk);
        }
        Err(ParserError)
    }

    /// Whether the parser has been marked for slicing the source at a span
    /// that does not slice it.
    pub(crate) fn slice_fault(&self) -> (b: bool)
        ensures
            b == self.state().slice_fault,
    {
        self.slice_fault
    }

    /// Hands out the syntax errors reported, leaving none.
    pub fn take_diagnostics(&mut self) -> (d: Vec<Diagnostic>)
        ensures
            d@.map_values(|x: Diagnostic| x@) == old(self).state().diagnostics,
            final(self).state().diagnostics == Seq::<DiagnosticView>::empty(),
            final(self).state().had_errors == old(self).state().had_errors,
    {
        let mut d = Vec::new();
        std::mem::swap(&mut d, &mut self.diagnostics);
        proof {
            assert(self.diagnostics@.map_values(|x: Diagnostic| x@) =~= Seq::<DiagnosticView>::empty());
        }
        d
    }
}

} // verus!
