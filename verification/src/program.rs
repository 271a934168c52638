use vstd::prelude::*;

use crate::chunk::{
    constant_bytes, decodable_at, decode_at, decodes_from, le_bytes, le_value, lemma_le_bytes_len, opcode_of,
    operand_width, pow256, read_operand, ChunkView, Instruction, OpCode,
};
use crate::grammar::{encode, Emit};
use crate::value::Value;

verus! {

/// The number of operand bytes of the operation at `o`.
pub open spec fn width_at(code: Seq<u8>, o: int) -> nat {
    match opcode_of(code[o]) {
        Ok(op) => operand_width(op),
        Err(_) => 0,
    }
}

/// From `o` on, `code` is a sequence of whole decodable instructions:
/// every operand is there in full and every constant it loads exists.
pub open spec fn complete_from(code: Seq<u8>, constants: Seq<Value>, o: int) -> bool
    decreases code.len() - o,
{
    if o == code.len() {
        true
    } else if 0 <= o < code.len() && decodable_at(code, constants, o) && o + 1 + width_at(code, o) <= code.len() {
        complete_from(code, constants, o + 1 + width_at(code, o))
    } else {
        false
    }
}

/// The instructions decoded from `o` on.
pub open spec fn decode_all(code: Seq<u8>, constants: Seq<Value>, o: int) -> Seq<Instruction>
    decreases code.len() - o,
{
    if 0 <= o < code.len() {
        let (instruction, next) = decode_at(code, constants, o);
        if o < next <= code.len() {
            seq![instruction] + decode_all(code, constants, next)
        } else {
            seq![instruction]
        }
    } else {
        Seq::empty()
    }
}

/// Every operation written is one without an operand.
pub open spec fn plain_ops(emits: Seq<(Emit, usize)>) -> bool {
    forall|i: int| 0 <= i < emits.len() ==> (#[trigger] emits[i].0 matches Emit::Op(op) ==> operand_width(op) == 0)
}

/// The instruction that a write stands for.
pub open spec fn instruction_of(e: Emit) -> Instruction {
    match e {
        Emit::Op(OpCode::Return) => Instruction::Return,
        Emit::Op(OpCode::Add) => Instruction::Add,
        Emit::Op(OpCode::Subtract) => Instruction::Subtract,
        Emit::Op(OpCode::Multiply) => Instruction::Multiply,
        Emit::Op(OpCode::Divide) => Instruction::Divide,
        Emit::Op(OpCode::Negate) => Instruction::Negate,
        Emit::Op(OpCode::Constant) | Emit::Op(OpCode::ConstantLong) => Instruction::Unknown(0),
        Emit::Load(v) => Instruction::Constant(v),
    }
}

/// The instructions that the writes `emits` stand for.
pub open spec fn instructions_of(emits: Seq<(Emit, usize)>) -> Seq<Instruction> {
    emits.map_values(|e: (Emit, usize)| instruction_of(e.0))
}

/// The value of `n`'s `count` low bytes read back.
pub proof fn lemma_le_value_of_bytes(n: nat, count: nat)
    ensures
        le_value(le_bytes(n, count)) == n % pow256(count),
    decreases count,
{
    lemma_pow256_pos(count);
    if count == 0 {
        assert(le_bytes(n, 0) =~= Seq::<u8>::empty());
    } else {
        lemma_le_value_of_bytes(n / 256, (count - 1) as nat);
        lemma_pow256_pos((count - 1) as nat);
        assert(le_bytes(n, count).drop_first() =~= le_bytes(n / 256, (count - 1) as nat));
        vstd::arithmetic::div_mod::lemma_mod_breakdown(n as int, 256, pow256((count - 1) as nat) as int);
    }
}

proof fn lemma_pow256_pos(n: nat)
    ensures
        pow256(n) >= 1,
    decreases n,
{
    if n > 0 {
        lemma_pow256_pos((n - 1) as nat);
    }
}

/// A whole instruction decodes the same with more code after it and more
/// constants after its own.
proof fn lemma_decode_extend(c1: Seq<u8>, k1: Seq<Value>, c2: Seq<u8>, k2: Seq<Value>, o: int)
    requires
        0 <= o < c1.len(),
        decodable_at(c1, k1, o),
        o + 1 + width_at(c1, o) <= c1.len(),
        k1.len() <= k2.len(),
        k2.take(k1.len() as int) == k1,
    ensures
        decode_at(c1 + c2, k2, o) == decode_at(c1, k1, o),
        decode_at(c1, k1, o).1 == o + 1 + width_at(c1, o),
        decodable_at(c1 + c2, k2, o),
        width_at(c1 + c2, o) == width_at(c1, o),
{
    let c = c1 + c2;
    assert(c[o] == c1[o]);
    let w = width_at(c1, o);
    assert(c.subrange(o + 1, o + 1 + w) =~= c1.subrange(o + 1, o + 1 + w));
    match opcode_of(c1[o]) {
        Ok(OpCode::Constant) | Ok(OpCode::ConstantLong) => {
            let index = read_operand(c1, o + 1, w).0;
            assert(k2[index as int] == k2.take(k1.len() as int)[index as int]);
        },
        _ => {},
    }
}

/// Decoding whole instructions, then code appended after them.
proof fn lemma_complete_append(c1: Seq<u8>, k1: Seq<Value>, c2: Seq<u8>, k2: Seq<Value>, o: int)
    requires
        0 <= o <= c1.len(),
        complete_from(c1, k1, o),
        complete_from(c1 + c2, k2, c1.len() as int),
        k1.len() <= k2.len(),
        k2.take(k1.len() as int) == k1,
    ensures
        complete_from(c1 + c2, k2, o),
        decode_all(c1 + c2, k2, o) == decode_all(c1, k1, o) + decode_all(c1 + c2, k2, c1.len() as int),
    decreases c1.len() - o,
{
    let c = c1 + c2;
    if o == c1.len() {
        assert(decode_all(c1, k1, o) =~= Seq::<Instruction>::empty());
        assert(decode_all(c, k2, o) =~= Seq::<Instruction>::empty() + decode_all(c, k2, o));
    } else {
        lemma_decode_extend(c1, k1, c2, k2, o);
        let next = o + 1 + width_at(c1, o);
        lemma_complete_append(c1, k1, c2, k2, next);
        assert(decode_all(c, k2, o) =~= seq![decode_at(c1, k1, o).0] + decode_all(c, k2, next));
        assert(decode_all(c1, k1, o) =~= seq![decode_at(c1, k1, o).0] + decode_all(c1, k1, next));
        assert(decode_all(c, k2, o) =~= decode_all(c1, k1, o) + decode_all(c, k2, c1.len() as int));
    }
}

/// A complete stream of instructions decodes, instruction after instruction, to its end.
pub proof fn lemma_complete_decodes(code: Seq<u8>, constants: Seq<Value>, o: int)
    requires
        0 <= o <= code.len(),
        complete_from(code, constants, o),
    ensures
        decodes_from(code, constants, o),
    decreases code.len() - o,
{
    if o < code.len() {
        assert(constants.take(constants.len() as int) =~= constants);
        lemma_decode_extend(code, constants, Seq::empty(), constants, o);
        assert(code + Seq::<u8>::empty() =~= code);
        lemma_complete_decodes(code, constants, o + 1 + width_at(code, o));
    }
}

/// The code of the last write: whole, decodable, and decoded to the write's
/// instruction when the constant's index fits in three bytes.
proof fn lemma_last_write(emits: Seq<(Emit, usize)>)
    requires
        emits.len() > 0,
        plain_ops(emits),
    ensures
        ({
            let before = encode(emits.drop_last());
            let after = encode(emits);
            &&& after.code.len() >= before.code.len()
            &&& after.code.subrange(0, before.code.len() as int) == before.code
            &&& before.constants.len() <= after.constants.len()
            &&& after.constants.take(before.constants.len() as int) == before.constants
            &&& complete_from(after.code, after.constants, before.code.len() as int)
            &&& (after.constants.len() <= pow256(3) ==> decode_all(after.code, after.constants, before.code.len() as int)
                == seq![instruction_of(emits.last().0)])
        }),
{
    let before = encode(emits.drop_last());
    let after = encode(emits);
    let o = before.code.len() as int;
    let (e, line) = emits.last();
    assert(emits[emits.len() - 1].0 == e);
    match e {
        Emit::Op(op) => {
            assert(after.code == before.code.push(op.code()));
            assert(after.code.subrange(0, o) =~= before.code);
            assert(after.constants.take(before.constants.len() as int) =~= before.constants);
            assert(after.code[o] == op.code());
            crate::chunk::law_opcode_bytes(op, 0);
            assert(complete_from(after.code, after.constants, o + 1));
            assert(decode_all(after.code, after.constants, o + 1) =~= Seq::<Instruction>::empty());
            assert(decode_all(after.code, after.constants, o) =~= seq![instruction_of(e)]);
        },
        Emit::Load(v) => {
            let index = before.constants.len();
            let bytes = constant_bytes(index);
            lemma_le_bytes_len(index, 3);
            assert(after.code == before.code + bytes);
            assert(after.code.subrange(0, o) =~= before.code);
            assert(after.constants.take(before.constants.len() as int) =~= before.constants);
            assert(after.constants[index as int] == v);
            if index < 256 {
                assert(after.code[o] == OpCode::Constant.code());
                assert(after.code.subrange(o + 1, o + 2) =~= seq![index as u8]);
                assert(seq![index as u8].drop_first() =~= Seq::<u8>::empty());
                assert(le_value(Seq::<u8>::empty()) == 0);
                assert(le_value(seq![index as u8]) == index);
                assert(complete_from(after.code, after.constants, o + 2));
            } else {
                assert(after.code[o] == OpCode::ConstantLong.code());
                assert(after.code.subrange(o + 1, o + 4) =~= le_bytes(index, 3));
                lemma_le_value_of_bytes(index, 3);
                lemma_pow256_pos(3);
                vstd::arithmetic::div_mod::lemma_mod_decreases(index, pow256(3));
                assert(complete_from(after.code, after.constants, o + 4));
                if after.constants.len() <= pow256(3) {
                    vstd::arithmetic::div_mod::lemma_small_mod(index, pow256(3));
                }
            }
            let next = o + bytes.len();
            assert(decode_all(after.code, after.constants, next) =~= Seq::<Instruction>::empty());
            if after.constants.len() <= pow256(3) {
                assert(decode_all(after.code, after.constants, o) =~= seq![instruction_of(e)]);
            }
        },
    }
}

/// What the machine reads back is what the compiler wrote: the chunk that
/// writes without operands and loads of constants produce is a stream of
/// whole, decodable instructions, and where every constant's index fits in
/// three bytes it decodes to exactly the written instructions, in order.
pub proof fn law_encode_decode(emits: Seq<(Emit, usize)>)
    requires
        plain_ops(emits),
    ensures
        complete_from(encode(emits).code, encode(emits).constants, 0),
        decodes_from(encode(emits).code, encode(emits).constants, 0),
        encode(emits).constants.len() <= pow256(3) ==> decode_all(encode(emits).code, encode(emits).constants, 0)
            == instructions_of(emits),
    decreases emits.len(),
{
    let c = encode(emits);
    if emits.len() == 0 {
        assert(instructions_of(emits) =~= Seq::<Instruction>::empty());
    } else {
        let prefix = emits.drop_last();
        assert(plain_ops(prefix)) by {
            assert forall|i: int| 0 <= i < prefix.len() implies (#[trigger] prefix[i].0 matches Emit::Op(op)
                ==> operand_width(op) == 0) by {
                assert(prefix[i] == emits[i]);
            }
        }
        law_encode_decode(prefix);
        lemma_last_write(emits);
        let b = encode(prefix);
        let tail = c.code.subrange(b.code.len() as int, c.code.len() as int);
        assert(b.code + tail =~= c.code);
        lemma_complete_append(b.code, b.constants, tail, c.constants, 0);
        if c.constants.len() <= pow256(3) {
            assert(b.constants.len() <= pow256(3));
            assert(instructions_of(emits) =~= instructions_of(prefix).push(instruction_of(emits.last().0)));
            assert(decode_all(c.code, c.constants, 0) =~= instructions_of(emits));
        }
    }
    lemma_complete_decodes(c.code, c.constants, 0);
}

} // verus!

verus! {

/// The chunk that writes produce grows write by write: where a chunk holds
/// the code of the writes `es`, a write of an operation's byte, or the
/// loading of a constant, as `Chunk::write` and `Chunk::write_constant`
/// state them, gives the code of `es` with that write added.
pub proof fn law_writes_build_code(es: Seq<(Emit, usize)>, e: (Emit, usize), after: ChunkView)
    requires
        match e.0 {
            Emit::Op(op) => {
                &&& after.code == encode(es).code.push(op.code())
                &&& after.constants == encode(es).constants
                &&& after.lines == encode(es).lines.push(e.1)
            },
            Emit::Load(v) => {
                &&& after.code == encode(es).code + constant_bytes(encode(es).constants.len())
                &&& after.constants == encode(es).constants.push(v)
                &&& after.lines == encode(es).lines + Seq::new(
                    constant_bytes(encode(es).constants.len()).len(),
                    |_j: int| e.1,
                )
            },
        },
    ensures
        after == encode(es.push(e)),
{
    assert(es.push(e).drop_last() =~= es);
    let b = encode(es.push(e));
    assert(after.code =~= b.code);
    assert(after.constants =~= b.constants);
    assert(after.lines =~= b.lines);
}

/// Where the writes' constants all have indexes that fit in three bytes,
/// write `j` is read back at the offset where it was written: the walk
/// over the chunk finds there the instruction it stands for, and goes on
/// at the offset of the next write.
pub proof fn law_written_offsets(emits: Seq<(Emit, usize)>, j: int)
    requires
        plain_ops(emits),
        encode(emits).constants.len() <= pow256(3),
        0 <= j < emits.len(),
    ensures
        decode_at(encode(emits).code, encode(emits).constants, encode(emits.take(j)).code.len() as int) == (
            instruction_of(emits[j].0),
            encode(emits.take(j + 1)).code.len() as int,
        ),
        decodable_at(encode(emits).code, encode(emits).constants, encode(emits.take(j)).code.len() as int),
        encode(emits.take(j + 1)).code.len() == encode(emits.take(j)).code.len() + 1 + width_at(
            encode(emits).code,
            encode(emits.take(j)).code.len() as int,
        ),
        encode(emits.take(j + 1)).code.len() <= encode(emits).code.len(),
    decreases emits.len(),
{
    let m = emits.len() as int;
    let prefix = emits.drop_last();
    let before = encode(prefix);
    let after = encode(emits);
    assert(emits.take(m) =~= emits);
    assert(emits.take(m - 1) =~= prefix);
    lemma_last_write(emits);
    if j == m - 1 {
        let o = before.code.len() as int;
        let (e, line) = emits.last();
        assert(emits[j] == emits.last());
        match e {
            Emit::Op(op) => {
                assert(emits[j].0 matches Emit::Op(o2) ==> operand_width(o2) == 0);
                assert(after.code == before.code.push(op.code()));
                crate::chunk::law_opcode_bytes(op, 0);
                assert(after.code[o] == op.code());
            },
            Emit::Load(v) => {
                let index = before.constants.len();
                lemma_le_bytes_len(index, 3);
                assert(after.constants[index as int] == v);
                crate::chunk::lemma_decode_constant_bytes(before.code, after.constants, index);
                assert(after.code[o] == constant_bytes(index)[0]);
            },
        }
    } else {
        assert(plain_ops(prefix)) by {
            assert forall|i: int| 0 <= i < prefix.len() implies (#[trigger] prefix[i].0 matches Emit::Op(op)
                ==> operand_width(op) == 0) by {
                assert(prefix[i] == emits[i]);
            }
        }
        law_written_offsets(prefix, j);
        assert(prefix.take(j) =~= emits.take(j));
        assert(prefix.take(j + 1) =~= emits.take(j + 1));
        assert(prefix[j] == emits[j]);
        let tail = after.code.subrange(before.code.len() as int, after.code.len() as int);
        assert(before.code + tail =~= after.code);
        lemma_decode_extend(
            before.code,
            before.constants,
            tail,
            after.constants,
            encode(emits.take(j)).code.len() as int,
        );
    }
}

} // verus!
