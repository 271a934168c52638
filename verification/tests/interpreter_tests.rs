use relox::chunk::Instruction;
use relox::compiler::{compile, compile_checked, number_literals};
use relox::errors::{InterpretError, RuntimeError, StackError};
use relox::objects::LoxObject;
use relox::grammar::Precedence;
use relox::parser::{Diagnostic, Parser};
use relox::repl::welcome_message;
use relox::scanner::TokenKind;
use relox::value::Value;
use relox::vm::{ArithOp, CompareOp, Effect, Vm};

fn bits(x: f64) -> u64 {
    x.to_bits()
}

fn numbers_of(source: &str) -> Vec<u64> {
    number_literals(source)
        .iter()
        .map(|t| bits(t.as_ref().unwrap().parse::<f64>().unwrap()))
        .collect()
}

fn diagnostics_text(d: &[Diagnostic]) -> Vec<String> {
    d.iter().map(|x| x.to_string()).collect()
}

/// Runs the chunk of `source`, doing the number operations in f64.
fn run(source: &str) -> Result<Vec<Value>, String> {
    let (chunk, diagnostics) = compile(source, numbers_of(source));
    let chunk = match chunk {
        Ok(c) => c,
        Err(_) => return Err(diagnostics_text(&diagnostics).join("\n")),
    };
    let mut vm = Vm::new(&chunk);
    let mut printed = Vec::new();
    while vm.has_next() {
        let instruction = vm.next_instruction();
        match vm.run_instruction(instruction) {
            Ok(Effect::Nothing) => {}
            Ok(Effect::Print(v)) => printed.push(v),
            Ok(Effect::Arithmetic(op, a, b)) => {
                let (a, b) = (f64::from_bits(a), f64::from_bits(b));
                let r = match op {
                    ArithOp::Add => a + b,
                    ArithOp::Subtract => a - b,
                    ArithOp::Multiply => a * b,
                    ArithOp::Divide => a / b,
                };
                vm.push_result(Value::Number(r.to_bits())).unwrap();
            }
            Ok(Effect::Comparison(op, a, b)) => {
                let (a, b) = (f64::from_bits(a), f64::from_bits(b));
                let r = match op {
                    CompareOp::Equal => a == b,
                    CompareOp::Greater => a > b,
                    CompareOp::Less => a < b,
                };
                vm.push_result(Value::Boolean(r)).unwrap();
            }
            Ok(Effect::Negate(a)) => {
                vm.push_result(Value::Number((-f64::from_bits(a)).to_bits())).unwrap();
            }
            Err(mut e) => {
                let line = vm.line();
                return Err(e.with_line(line).to_string());
            }
        }
    }
    Ok(printed)
}

#[test]
fn arithmetic_follows_precedence() {
    assert_eq!(run("1 + 2 * 3"), Ok(vec![Value::Number(bits(7.0))]));
    assert_eq!(run("(1 + 2) * 3"), Ok(vec![Value::Number(bits(9.0))]));
    assert_eq!(run("10 - 4 - 3"), Ok(vec![Value::Number(bits(3.0))]));
    assert_eq!(run("8 / 4 / 2"), Ok(vec![Value::Number(bits(1.0))]));
    assert_eq!(run("-2 * -3"), Ok(vec![Value::Number(bits(6.0))]));
    assert_eq!(run("--1.5"), Ok(vec![Value::Number(bits(1.5))]));
}

#[test]
fn compiled_code_for_a_sum() {
    let source = "1 + 2";
    let (chunk, diagnostics) = compile(source, numbers_of(source));
    assert!(diagnostics.is_empty());
    let chunk = chunk.ok().unwrap();
    let mut it = chunk.iter();
    let mut instructions = Vec::new();
    while let Some((_, i)) = it.next() {
        instructions.push(i);
    }
    assert_eq!(
        instructions,
        vec![
            Instruction::Constant(Value::Number(bits(1.0))),
            Instruction::Constant(Value::Number(bits(2.0))),
            Instruction::Add,
            Instruction::Return,
        ]
    );
}

#[test]
fn missing_number_values_load_zero_bits() {
    let (chunk, _) = compile("4", Vec::new());
    let chunk = chunk.ok().unwrap();
    let mut it = chunk.iter();
    assert_eq!(it.next(), Some((0, Instruction::Constant(Value::Number(0)))));
}

#[test]
fn number_literals_in_order() {
    let some = |s: &str| Some(s.to_string());
    assert_eq!(number_literals("1 + 23.5 * (4)"), vec![some("1"), some("23.5"), some("4")]);
    assert_eq!(number_literals("/* 9 */ \"7\" x"), Vec::<Option<String>>::new());
    // Spans count characters and slices take them as byte positions: after
    // a two-byte character the literal's span picks out other bytes.
    assert_eq!(number_literals("\u{e9} 12"), vec![some(" 1")]);
    // A span that would cut a character in two slices nothing.
    assert_eq!(number_literals("\u{e9}1"), vec![None]);
}

#[test]
fn unclosed_group_reports_twice() {
    let (chunk, diagnostics) = compile("(", Vec::new());
    assert_eq!(chunk.err(), Some(InterpretError::Compile));
    assert_eq!(
        diagnostics_text(&diagnostics),
        vec![
            "[line 1] Error at end: Expect expression.".to_string(),
            "[line 1] Error at end: Expect ')' after expression.".to_string(),
        ]
    );
}

#[test]
fn trailing_token_is_reported_at_its_text() {
    let source = "1 2";
    let (chunk, diagnostics) = compile(source, numbers_of(source));
    assert!(chunk.is_err());
    assert_eq!(diagnostics_text(&diagnostics), vec!["[line 1] Error at '2': Expect end of expression.".to_string()]);
}

#[test]
fn scan_errors_are_reported_without_text() {
    let (chunk, diagnostics) = compile("1 + @", numbers_of("1 + @"));
    assert!(chunk.is_err());
    assert_eq!(
        diagnostics_text(&diagnostics),
        vec!["[line 1] Error: Unknown token.".to_string(), "[line 1] Error at end: Expect expression.".to_string()]
    );
}

#[test]
fn parser_diagnostics_after_parse() {
    let mut parser = Parser::new("+", Vec::new());
    assert!(parser.parse().is_err());
    assert_eq!(diagnostics_text(parser.diagnostics()), vec!["[line 1] Error at '+': Expect expression.".to_string()]);
}

#[test]
fn empty_source_is_an_error() {
    assert_eq!(run(""), Err("[line 1] Error at end: Expect expression.".to_string()));
}

#[test]
fn runtime_error_report() {
    let mut e = RuntimeError::new("Operands must be numbers.");
    assert_eq!(e.to_string(), "Operands must be numbers.\n");
    assert_eq!(e.with_line(12).to_string(), "Operands must be numbers.\n[line 12] in script\n");
    assert_eq!(RuntimeError::from_stack_error(StackError::Underflow).to_string(), "Stack underflow.\n");
}

#[test]
fn vm_faults() {
    let mut chunk = relox::chunk::Chunk::new();
    chunk.write_constant(Value::Boolean(true), 1);
    chunk.write(relox::chunk::OpCode::Negate.byte(), 1);
    let mut vm = Vm::new(&chunk);
    let i = vm.next_instruction();
    assert_eq!(vm.run_instruction(i).ok(), Some(Effect::Nothing));
    let i = vm.next_instruction();
    let mut e = vm.run_instruction(i).err().unwrap();
    assert_eq!(e.with_line(vm.line()).to_string(), "Operand must be a number.\n[line 1] in script\n");
}

#[test]
fn vm_instructions_without_opcodes() {
    let chunk = relox::chunk::Chunk::new();
    let mut vm = Vm::new(&chunk);
    assert_eq!(vm.run_instruction(Instruction::Return).err().unwrap().to_string(), "Stack underflow.\n");
    assert_eq!(vm.run_instruction(Instruction::Constant(Value::Nil)).ok(), Some(Effect::Nothing));
    assert_eq!(vm.run_instruction(Instruction::Not).ok(), Some(Effect::Nothing));
    assert_eq!(vm.run_instruction(Instruction::Return).ok(), Some(Effect::Print(Value::Boolean(true))));
    vm.run_instruction(Instruction::Constant(Value::Nil)).unwrap();
    vm.run_instruction(Instruction::Constant(Value::Nil)).unwrap();
    assert_eq!(vm.run_instruction(Instruction::Equal).ok(), Some(Effect::Nothing));
    assert_eq!(vm.run_instruction(Instruction::Return).ok(), Some(Effect::Print(Value::Boolean(true))));
    vm.run_instruction(Instruction::Constant(Value::Number(bits(1.0)))).unwrap();
    vm.run_instruction(Instruction::Constant(Value::Number(bits(2.0)))).unwrap();
    assert_eq!(
        vm.run_instruction(Instruction::Less).ok(),
        Some(Effect::Comparison(CompareOp::Less, bits(1.0), bits(2.0)))
    );
    vm.run_instruction(Instruction::Constant(Value::Nil)).unwrap();
    vm.run_instruction(Instruction::Constant(Value::Number(bits(2.0)))).unwrap();
    assert_eq!(
        vm.run_instruction(Instruction::Greater).err().unwrap().to_string(),
        "Operands must be numbers.\n"
    );
    assert_eq!(vm.run_instruction(Instruction::Unknown(77)).err().unwrap().to_string(), "Unknown opcode 77\n");
}

#[test]
fn vm_stack_overflow() {
    let chunk = relox::chunk::Chunk::new();
    let mut vm = Vm::new(&chunk);
    for _ in 0..256 {
        vm.run_instruction(Instruction::Constant(Value::Nil)).unwrap();
    }
    assert_eq!(
        vm.run_instruction(Instruction::Constant(Value::Nil)).err().unwrap().to_string(),
        "Stack overflow.\n"
    );
}

#[test]
fn truthiness() {
    assert!(!Value::Nil.is_truthy());
    assert!(!Value::Boolean(false).is_truthy());
    assert!(Value::Boolean(true).is_truthy());
    assert!(Value::Number(0).is_truthy());
}

#[test]
fn string_objects_compare_by_text() {
    assert!(LoxObject::string("ab".to_string()) == LoxObject::string("ab".to_string()));
    assert!(LoxObject::string("ab".to_string()) != LoxObject::string("b".to_string()));
}

#[test]
fn exit_codes() {
    assert_eq!(InterpretError::Compile.exit_code(), 65);
    assert_eq!(InterpretError::Runtime.exit_code(), 70);
}

#[test]
fn precedence_order() {
    assert_eq!(Precedence::Term.one_higher(), Precedence::Factor);
    assert_eq!(Precedence::Primary.one_higher(), Precedence::Primary);
    assert_eq!(Precedence::from_kind(TokenKind::Star), Precedence::Factor);
    assert_eq!(Precedence::from_kind(TokenKind::Minus), Precedence::Term);
    assert_eq!(Precedence::from_kind(TokenKind::Number), Precedence::Lowest);
    assert!(Precedence::Term.at_most(&Precedence::Factor));
    assert!(!Precedence::Unary.at_most(&Precedence::Factor));
}

#[test]
fn welcome() {
    assert_eq!(welcome_message("relox", "0.1.0", "me"), "Welcome to relox version 0.1.0 by me\nUse ^D to quit");
}

#[test]
fn compiled_code_keeps_the_stack() {
    // Every source that compiles runs to its single printed value: no
    // instruction finds too few operands, and the return empties the stack.
    for source in ["1", "-(2)", "(1 + 2) * (3 - 4) / -5", "((((7))))", "1 - 2 - 3 - 4 * 5 / 6"] {
        let printed = run(source).expect("runs");
        assert_eq!(printed.len(), 1, "{}", source);
    }
    assert_eq!(run("2 * (3 + 4)"), Ok(vec![Value::Number(bits(14.0))]));
}

#[test]
fn a_failed_parse_is_a_compile_error() {
    let e: InterpretError = relox::parser::ParserError.into();
    assert_eq!(e, InterpretError::Compile);
    assert_eq!(InterpretError::from(relox::parser::ParserError), InterpretError::Compile);
}

#[test]
fn literals_load_their_numbers_in_order() {
    let source = "-(3 - 1) * 2 / 8";
    assert_eq!(number_literals(source).len(), 4);
    let (chunk, diagnostics) = compile(source, vec![10, 20, 30, 40]);
    assert!(diagnostics.is_empty());
    let chunk = chunk.ok().unwrap();
    let mut it = chunk.iter();
    let mut loaded = Vec::new();
    while let Some((_, i)) = it.next() {
        if let Instruction::Constant(v) = i {
            loaded.push(v);
        }
    }
    assert_eq!(
        loaded,
        vec![Value::Number(10), Value::Number(20), Value::Number(30), Value::Number(40)]
    );
}

#[test]
fn deep_nesting_meets_only_overflow() {
    // Each pending `1 + (` keeps a value on the stack; past the stack's
    // capacity the run stops with an overflow, never an underflow.
    let depth = 300;
    let mut source = String::new();
    for _ in 0..depth {
        source.push_str("1 + (");
    }
    source.push('1');
    for _ in 0..depth {
        source.push(')');
    }
    assert_eq!(run(&source), Err("Stack overflow.\n[line 1] in script\n".to_string()));
    let mut shallow = String::new();
    for _ in 0..100 {
        shallow.push_str("1 + (");
    }
    shallow.push('1');
    for _ in 0..100 {
        shallow.push(')');
    }
    assert_eq!(run(&shallow), Ok(vec![Value::Number(bits(101.0))]));
}

#[test]
fn the_grammar_decides_what_compiles() {
    let compiles = |source: &str| compile(source, numbers_of(source)).0.is_ok();
    for source in ["1", "-1", "1 + 2 * 3", "(1)", "--(2 / 3) - 4", "  1\n+\n2 // end", "/* a */ 3 * (4 - -5)"] {
        assert!(compiles(source), "{}", source);
    }
    for source in ["", "1 +", "(1", "1)", "1 2", "* 1", "1 @", "1 + nil", "\"s\"", "1 == 2", "(1))"] {
        assert!(!compiles(source), "{}", source);
    }
}

#[test]
fn reports_show_the_slice_at_the_span() {
    // The unknown character is reported without text; the trailing `2`
    // is reported at the bytes its span picks out.
    let source = "\u{e9} 1 2";
    let (chunk, diagnostics) = compile(source, vec![0, 0]);
    assert!(chunk.is_err());
    assert_eq!(
        diagnostics_text(&diagnostics),
        vec![
            "[line 1] Error: Unknown token.".to_string(),
            "[line 1] Error at ' ': Expect end of expression.".to_string(),
        ]
    );
}

#[test]
fn spans_that_do_not_slice_are_told_apart() {
    // The literal `1` spans the second byte of the two-byte character.
    assert!(compile_checked("\u{e9}1", vec![0]).is_none());
    // The `)` reported as no expression spans a byte and a half.
    assert!(compile_checked("\u{e9}\u{e9})", Vec::new()).is_none());
    // Where every span slices, the checked compile is the compile.
    let checked = compile_checked("\u{e9} 1 2", vec![0, 0]).unwrap();
    assert!(checked.0.is_err());
    assert_eq!(checked.1.len(), 2);
    assert!(compile_checked("1 + 2", vec![bits(1.0), bits(2.0)]).unwrap().0.is_ok());
}

#[test]
fn parse_goes_on_from_where_the_parser_stands() {
    // Moving to the first token before the parse makes it start at `+`.
    let mut parser = Parser::new("1 + 2", vec![bits(1.0), bits(2.0)]);
    parser.advance();
    assert!(parser.parse().is_err());
    assert_eq!(
        diagnostics_text(parser.diagnostics()),
        vec![
            "[line 1] Error at '+': Expect expression.".to_string(),
            "[line 1] Error at '2': Expect end of expression.".to_string(),
        ]
    );
    // A second parse after a successful one reads past the end.
    let mut parser = Parser::new("1", vec![bits(1.0)]);
    assert!(parser.parse().is_ok());
    assert!(parser.parse().is_err());
    assert_eq!(diagnostics_text(parser.diagnostics()), vec!["[line 1] Error at end: Expect expression.".to_string()]);
}
