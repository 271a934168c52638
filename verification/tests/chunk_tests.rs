use relox::chunk::{Chunk, DisassembledOp, Disassembly, Instruction, OpCode};
use relox::stack::Stack;
use relox::value::Value;

#[test]
fn opcode_bytes_round_trip() {
    let ops = [
        OpCode::Return,
        OpCode::Constant,
        OpCode::ConstantLong,
        OpCode::Add,
        OpCode::Subtract,
        OpCode::Multiply,
        OpCode::Divide,
        OpCode::Negate,
    ];
    for (i, op) in ops.iter().enumerate() {
        assert_eq!(op.byte(), i as u8);
        assert_eq!(OpCode::try_from(op.byte()), Ok(*op));
    }
    assert_eq!(OpCode::try_from(8), Err(()));
    assert_eq!(OpCode::try_from(255), Err(()));
}

#[test]
fn opcode_debug_names() {
    assert_eq!(OpCode::Return.debug_name(), "OP_RETURN");
    assert_eq!(OpCode::ConstantLong.debug_name(), "OP_CONSTANT_LONG");
    assert_eq!(OpCode::Negate.ident(), "Negate");
}

#[test]
fn lines_are_kept_per_byte() {
    let mut chunk = Chunk::new();
    chunk.write(OpCode::Add.byte(), 1);
    chunk.write(OpCode::Add.byte(), 1);
    chunk.write(OpCode::Negate.byte(), 2);
    chunk.write(OpCode::Return.byte(), 1);
    assert_eq!(chunk.get_line(0), 1);
    assert_eq!(chunk.get_line(1), 1);
    assert_eq!(chunk.get_line(2), 2);
    assert_eq!(chunk.get_line(3), 1);
}

#[test]
fn short_constant_reads_back() {
    let mut chunk = Chunk::new();
    chunk.write_constant(Value::Number(1.5f64.to_bits()), 3);
    chunk.write(OpCode::Return.byte(), 3);
    let mut it = chunk.iter();
    assert!(it.has_next());
    let (offset, instruction) = it.next().unwrap();
    assert_eq!(offset, 0);
    assert_eq!(instruction, Instruction::Constant(Value::Number(1.5f64.to_bits())));
    assert_eq!(it.line(), 3);
    assert_eq!(it.next(), Some((2, Instruction::Return)));
    assert!(!it.has_next());
    assert_eq!(it.next(), None);
}

#[test]
fn long_constant_reads_back() {
    let mut chunk = Chunk::new();
    for i in 0..300u64 {
        chunk.write_constant(Value::Number(i), 1);
    }
    let mut it = chunk.iter();
    let mut offset = 0;
    for i in 0..300u64 {
        let (at, instruction) = it.next().unwrap();
        assert_eq!(at, offset);
        assert_eq!(instruction, Instruction::Constant(Value::Number(i)));
        offset += if i < 256 { 2 } else { 4 };
    }
    assert_eq!(it.next(), None);
}

#[test]
fn unknown_byte_decodes_as_unknown() {
    let mut chunk = Chunk::new();
    chunk.write(42, 1);
    let mut it = chunk.iter();
    assert_eq!(it.next(), Some((0, Instruction::Unknown(42))));
}

#[test]
fn disassembly() {
    let mut chunk = Chunk::new();
    chunk.write_constant(Value::Nil, 1);
    chunk.write(OpCode::Negate.byte(), 1);
    chunk.write(OpCode::Return.byte(), 2);
    chunk.write(9, 2);
    let (first, next) = chunk.disassemble_instruction(0);
    assert_eq!(
        first,
        Disassembly { offset: 0, line: Some(1), op: DisassembledOp::Constant(OpCode::Constant, 0, Value::Nil) }
    );
    assert_eq!(next, 2);
    let (second, next) = chunk.disassemble_instruction(next);
    assert_eq!(second, Disassembly { offset: 2, line: None, op: DisassembledOp::Simple(OpCode::Negate) });
    let (third, next) = chunk.disassemble_instruction(next);
    assert_eq!(third, Disassembly { offset: 3, line: Some(2), op: DisassembledOp::Simple(OpCode::Return) });
    let (fourth, next) = chunk.disassemble_instruction(next);
    assert_eq!(fourth, Disassembly { offset: 4, line: None, op: DisassembledOp::Unknown(9) });
    assert_eq!(next, 5);
}

#[test]
fn stack_is_last_in_first_out() {
    let mut stack: Stack<u32, 2> = Stack::new();
    assert_eq!(stack.pop(), None);
    assert!(stack.top().is_none());
    assert_eq!(stack.push(1), Ok(()));
    assert_eq!(stack.push(2), Ok(()));
    assert_eq!(stack.push(3), Err(()));
    assert_eq!(stack.len(), 2);
    *stack.top().unwrap() = 5;
    assert_eq!(stack.pop(), Some(5));
    assert_eq!(stack.pop(), Some(1));
    assert_eq!(stack.pop(), None);
}

#[test]
fn writes_on_one_line_share_a_run() {
    let mut c = Chunk::new();
    assert!(c.line_runs().is_empty());
    c.write(0, 1);
    c.write(3, 1);
    c.write(7, 2);
    assert_eq!(c.line_runs(), &vec![(1, 2), (2, 3)]);
    let mut d = Chunk::new();
    d.write_constant(Value::Number(1.2f64.to_bits()), 5);
    assert_eq!(d.line_runs(), &vec![(5, 2)]);
    d.write_constant(Value::Nil, 5);
    d.write(OpCode::Return.byte(), 6);
    assert_eq!(d.line_runs(), &vec![(5, 4), (6, 5)]);
}

#[test]
fn written_chunk_reads_back_at_its_offsets() {
    let mut c = Chunk::new();
    c.write_constant(Value::Boolean(true), 1);
    c.write(OpCode::Negate.byte(), 1);
    for k in 0..300u64 {
        c.write_constant(Value::Number(k), 2);
    }
    c.write(OpCode::Return.byte(), 3);
    let mut it = c.iter();
    assert_eq!(it.next(), Some((0, Instruction::Constant(Value::Boolean(true)))));
    assert!(it.has_next());
    assert_eq!(it.next(), Some((2, Instruction::Negate)));
    let mut offset = 3;
    for k in 0..300u64 {
        assert_eq!(it.next(), Some((offset, Instruction::Constant(Value::Number(k)))));
        // the first 256 constants load with a short form, later ones with a long one
        offset += if k + 1 < 256 { 2 } else { 4 };
    }
    assert_eq!(it.next(), Some((offset, Instruction::Return)));
    assert!(!it.has_next());
    assert_eq!(it.next(), None);
}
