use vstd::prelude::*;

use crate::chunk::{decodes_from, Chunk, Instruction};
use crate::codegen::{
    law_compiled_code_keeps_stack, law_literals_load_their_numbers, least_height, literal_values, loads, net_height,
    only_compiled,
};
use crate::program::{instructions_of, law_encode_decode, plain_ops};
use crate::errors::InterpretError;
use crate::grammar::{encode, parse_source};
use crate::parser::{Diagnostic, Parser};
use crate::scanner::{scan_step, slices_at_bytes, span_bytes, tokens, Scanner, Token, TokenKind};
use vstd::string::StringSliceAdditionalSpecFns;
use vstd::utf8::{decode_utf8, encode_utf8};
use crate::syntax::{blanked, law_code_is_postfix, law_compiles_iff_grammar_reads, rd_sum, token_kinds};

verus! {

/// The text that slicing `source` at the token's span gives (its start and
/// length taken as byte positions); nothing where that slice is not one.
pub open spec fn literal_text(s: Seq<char>, token: Token) -> Option<Seq<char>> {
    if slices_at_bytes(s, token) {
        Some(decode_utf8(span_bytes(s, token)))
    } else {
        None
    }
}

/// The texts of the number tokens that the skipping scanner hands out from `pos` on.
pub open spec fn number_texts_from(s: Seq<char>, pos: int) -> Seq<Option<Seq<char>>>
    decreases s.len() - pos,
{
    let (t, end, _start) = scan_step(s, pos, pos, true);
    match t {
        Some(token) => {
            let rest = if pos < end <= s.len() {
                number_texts_from(s, end)
            } else {
                Seq::empty()
            };
            if token.kind == TokenKind::Number {
                seq![literal_text(s, token)] + rest
            } else {
                rest
            }
        },
        None => Seq::empty(),
    }
}

/// The view of a text that may be missing.
pub open spec fn text_view(t: Option<String>) -> Option<Seq<char>> {
    match t {
        Some(x) => Some(x@),
        None => None,
    }
}

/// The texts of the number literals of `source`, in order: the `k`-th of
/// them is the literal that `compile` loads from `numbers[k]`. Each is the
/// slice of `source` at the literal's span (see `Token::slice`), or `None`
/// where that span does not slice `source`.
pub fn number_literals(source: &str) -> (texts: Vec<Option<String>>)
    requires
        source@.len() + 2 < usize::MAX,
    ensures
        texts@.map_values(|t: Option<String>| text_view(t)) == number_texts_from(source@, 0),
{
    let ghost s = source@;
    let nbytes = source.as_bytes().len();
    let mut scanner = Scanner::new(source).skip_ignorable();
    let mut texts: Vec<Option<String>> = Vec::new();
    loop
        invariant
            scanner.wf(),
            scanner.skips(),
            scanner.source() == s,
            s == source@,
            s.len() + 2 < usize::MAX,
            nbytes == encode_utf8(s).len(),
            0 <= scanner.position(),
            texts@.map_values(|t: Option<String>| text_view(t)) + number_texts_from(s, scanner.position())
                == number_texts_from(s, 0),
        decreases s.len() + 1 - scanner.position(),
    {
        let ghost pos = scanner.position();
        let ghost before = texts@.map_values(|t: Option<String>| text_view(t));
        proof {
            crate::scanner::lemma_scan_step_forward(s, pos, scanner.token_start(), pos, true);
            crate::scanner::lemma_scan_step_token(s, pos, scanner.token_start(), true);
        }
        match scanner.next() {
            Some(token) => {
                let ghost end = scanner.position();
                proof {
                    if end > s.len() {
                        assert(number_texts_from(s, end) =~= Seq::<Option<Seq<char>>>::empty());
                    }
                }
                if token.kind == TokenKind::Number {
                    let stop = token.span.start + token.span.lenth;
                    let text = if stop <= nbytes && source.is_char_boundary(token.span.start)
                        && source.is_char_boundary(stop) {
                        Some(String::from_str(token.slice(source)))
                    } else {
                        None
                    };
                    texts.push(text);
                    proof {
                        assert(text_view(text) == literal_text(s, token));
                        assert(texts@.map_values(|t: Option<String>| text_view(t)) =~= before.push(
                            literal_text(s, token),
                        ));
                        assert(before.push(literal_text(s, token)) + number_texts_from(s, end) =~= before + (
                        seq![literal_text(s, token)] + number_texts_from(s, end)));
                    }
                }
            },
            None => {
                proof {
                    assert(number_texts_from(s, pos) =~= Seq::<Option<Seq<char>>>::empty());
                    assert(texts@.map_values(|t: Option<String>| text_view(t)) =~= number_texts_from(s, 0));
                }
                return texts;
            },
        }
    }
}

/// What compiling `source` with the literal values `numbers` gives (see
/// `compile`).
pub open spec fn compiled(source: Seq<char>, numbers: Seq<u64>, r: (Result<Chunk, InterpretError>, Vec<Diagnostic>)) -> bool {
    let st = parse_source(source, numbers);
    &&& r.1@.map_values(|d: Diagnostic| d@) == st.diagnostics
    &&& (r.0 is Ok <==> !st.had_errors)
    &&& (r.0 matches Ok(c) ==> c.wf() && c@ == encode(st.emitted))
    &&& (r.0 matches Ok(c) ==> decodes_from(c@.code, c@.constants, 0))
    &&& plain_ops(st.emitted)
    &&& (r.0 is Err <==> r.1@.len() > 0)
    &&& (r.0 matches Err(e) ==> e == InterpretError::Compile)
    &&& (r.0 is Ok ==> least_height(instructions_of(st.emitted)) == 0 && net_height(instructions_of(st.emitted)) == 0
        && only_compiled(instructions_of(st.emitted)))
    &&& (r.0 is Ok ==> loads(instructions_of(st.emitted)) == literal_values(
        numbers,
        0,
        number_texts_from(source, 0).len() as int,
    ))
    &&& (r.0 is Ok <==> (rd_sum(token_kinds(tokens(source, true))) matches Some((_c, rest)) && rest.len() == 0))
    &&& (r.0 is Ok ==> instructions_of(st.emitted).len() > 0 && instructions_of(st.emitted).last()
        == Instruction::Return && rd_sum(token_kinds(tokens(source, true))) == Some(
        (blanked(instructions_of(st.emitted).drop_last()), Seq::<TokenKind>::empty()),
    ))
}

/// Compiles `source` into a chunk, with the syntax errors it reports.
/// Number literal `k` (see `number_literals`) loads `numbers[k]`, the bits of
/// its value. Succeeds exactly where the grammar of sums, products and
/// negations (`rd_sum`) reads all of the source's tokens, with the postfix
/// form of the expression followed by a return; else fails with a compile
/// error, having reported at least one syntax error.
///
/// Left out: sources on which the parse slices the source at a span that
/// does not slice it (a literal it loads, or a token it reports; see
/// `Token::slice`), where slicing fails (`compile_checked` tells them
/// apart); and sources of a quarter of `usize::MAX` characters or more, as
/// the code of a source may take up to four bytes for each of its
/// characters and the code's length is a `usize`.
pub fn compile(source: &str, numbers: Vec<u64>) -> (r: (Result<Chunk, InterpretError>, Vec<Diagnostic>))
    requires
        source@.len() * 4 + 64 < usize::MAX,
        !parse_source(source@, numbers@).slice_fault,
    ensures
        compiled(source@, numbers@, r),
{
    let mut parser = Parser::new(source, numbers);
    let result = parser.parse();
    let diagnostics = parser.take_diagnostics();
    proof {
        law_encode_decode(parse_source(source@, numbers@).emitted);
        lemma_compiled_laws(source@, numbers@);
    }
    match result {
        Ok(chunk) => (Ok(chunk), diagnostics),
        Err(e) => (Err(InterpretError::from(e)), diagnostics),
    }
}

/// `compile` on every source of the length it takes: `None` exactly where
/// the parse slices the source at a span that does not slice it (where
/// slicing fails), else what `compile` gives.
pub fn compile_checked(source: &str, numbers: Vec<u64>) -> (r: Option<(Result<Chunk, InterpretError>, Vec<Diagnostic>)>)
    requires
        source@.len() * 4 + 64 < usize::MAX,
    ensures
        r is None <==> parse_source(source@, numbers@).slice_fault,
        r matches Some(x) ==> compiled(source@, numbers@, x),
{
    let mut parser = Parser::new(source, numbers);
    let result = parser.parse_marked();
    if parser.slice_fault() {
        return None;
    }
    let diagnostics = parser.take_diagnostics();
    proof {
        law_encode_decode(parse_source(source@, numbers@).emitted);
        lemma_compiled_laws(source@, numbers@);
    }
    match result {
        Ok(chunk) => Some((Ok(chunk), diagnostics)),
        Err(e) => Some((Err(InterpretError::from(e)), diagnostics)),
    }
}

proof fn lemma_compiled_laws(s: Seq<char>, numbers: Seq<u64>)
    ensures
        ({
            let st = parse_source(s, numbers);
            &&& (!st.had_errors ==> least_height(instructions_of(st.emitted)) == 0 && net_height(
                instructions_of(st.emitted),
            ) == 0 && only_compiled(instructions_of(st.emitted)))
            &&& (!st.had_errors ==> loads(instructions_of(st.emitted)) == literal_values(
                numbers,
                0,
                number_texts_from(s, 0).len() as int,
            ))
            &&& (!st.had_errors <==> (rd_sum(token_kinds(tokens(s, true))) matches Some((_c, rest)) && rest.len()
                == 0))
            &&& (!st.had_errors ==> instructions_of(st.emitted).len() > 0 && instructions_of(st.emitted).last()
                == Instruction::Return && rd_sum(token_kinds(tokens(s, true))) == Some(
                (blanked(instructions_of(st.emitted).drop_last()), Seq::<TokenKind>::empty()),
            ))
        }),
{
    let st = parse_source(s, numbers);
    if !st.had_errors {
        law_compiled_code_keeps_stack(s, numbers);
        law_literals_load_their_numbers(s, numbers);
        law_code_is_postfix(s, numbers);
    }
    law_compiles_iff_grammar_reads(s, numbers);
}

} // verus!
