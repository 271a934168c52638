use vstd::prelude::*;

use crate::names::{c_style, c_style_name};
use crate::value::Value;

verus! {

/// The operation codes of the bytecode.
#[derive(Debug, Clone, Copy, PartialEq, Eq, Structural)]
pub enum OpCode {
    Return,
    Constant,
    ConstantLong,
    Add,
    Subtract,
    Multiply,
    Divide,
    Negate,
}

impl OpCode {
    /// The byte that stands for the operation: its place in the list of operations.
    pub open spec fn code(self) -> u8 {
        match self {
            OpCode::Return => 0,
            OpCode::Constant => 1,
            OpCode::ConstantLong => 2,
            OpCode::Add => 3,
            OpCode::Subtract => 4,
            OpCode::Multiply => 5,
            OpCode::Divide => 6,
            OpCode::Negate => 7,
        }
    }

    pub fn byte(&self) -> (b: u8)
        ensures
            b == self.code(),
    {
        match self {
            OpCode::Return => 0,
            OpCode::Constant => 1,
            OpCode::ConstantLong => 2,
            OpCode::Add => 3,
            OpCode::Subtract => 4,
            OpCode::Multiply => 5,
            OpCode::Divide => 6,
            OpCode::Negate => 7,
        }
    }

    /// The operation a byte stands for; `Err` for a byte that stands for none.
    pub fn try_from(value: u8) -> (r: Result<OpCode, ()>)
        ensures
            r == opcode_of(value),
    {
        match value {
            0 => Ok(OpCode::Return),
            1 => Ok(OpCode::Constant),
            2 => Ok(OpCode::ConstantLong),
            3 => Ok(OpCode::Add),
            4 => Ok(OpCode::Subtract),
            5 => Ok(OpCode::Multiply),
            6 => Ok(OpCode::Divide),
            7 => Ok(OpCode::Negate),
            _ => Err(()),
        }
    }
}

/// The operation that byte `b` stands for.
pub open spec fn opcode_of(b: u8) -> Result<OpCode, ()> {
    if b == 0 {
        Ok(OpCode::Return)
    } else if b == 1 {
        Ok(OpCode::Constant)
    } else if b == 2 {
        Ok(OpCode::ConstantLong)
    } else if b == 3 {
        Ok(OpCode::Add)
    } else if b == 4 {
        Ok(OpCode::Subtract)
    } else if b == 5 {
        Ok(OpCode::Multiply)
    } else if b == 6 {
        Ok(OpCode::Divide)
    } else if b == 7 {
        Ok(OpCode::Negate)
    } else {
        Err(())
    }
}

/// Each operation's byte stands for that operation, and every byte that
/// stands for an operation is that operation's byte.
pub proof fn law_opcode_bytes(op: OpCode, b: u8)
    ensures
        opcode_of(op.code()) == Ok::<OpCode, ()>(op),
        opcode_of(b) matches Ok(o) ==> o.code() == b,
        opcode_of(b) is Err <==> b >= 8,
{
}

/// A decoded instruction.
#[derive(Debug, Clone, Copy, PartialEq, Eq, Structural)]
pub enum Instruction {
    Return,
    Constant(Value),
    Add,
    Subtract,
    Multiply,
    Divide,
    Negate,
    Not,
    Equal,
    Greater,
    Less,
    Unknown(u8),
}

// ---------------------------------------------------------------------------
// Little-endian operands.
// ---------------------------------------------------------------------------

pub open spec fn pow256(n: nat) -> nat
    decreases n,
{
    if n == 0 {
        1
    } else {
        256 * pow256((n - 1) as nat)
    }
}

/// The `count` low bytes of `n`, the lowest first.
pub open spec fn le_bytes(n: nat, count: nat) -> Seq<u8>
    decreases count,
{
    if count == 0 {
        Seq::empty()
    } else {
        seq![(n % 256) as u8] + le_bytes(n / 256, (count - 1) as nat)
    }
}

/// The number whose bytes, the lowest first, are `bytes`.
pub open spec fn le_value(bytes: Seq<u8>) -> nat
    decreases bytes.len(),
{
    if bytes.len() == 0 {
        0
    } else {
        bytes[0] as nat + 256 * le_value(bytes.drop_first())
    }
}

proof fn lemma_pow256_positive(n: nat)
    ensures
        pow256(n) >= 1,
    decreases n,
{
    if n > 0 {
        lemma_pow256_positive((n - 1) as nat);
    }
}

/// Reading back `count` bytes written from `n` gives `n`, where it fits in them.
pub proof fn law_le_roundtrip(n: nat, count: nat)
    requires
        n < pow256(count),
    ensures
        le_value(le_bytes(n, count)) == n,
        le_bytes(n, count).len() == count,
    decreases count,
{
    if count > 0 {
        let rest = le_bytes(n / 256, (count - 1) as nat);
        assert(n / 256 < pow256((count - 1) as nat)) by (nonlinear_arith)
            requires
                n < 256 * pow256((count - 1) as nat),
        ;
        law_le_roundtrip(n / 256, (count - 1) as nat);
        assert(le_bytes(n, count).drop_first() =~= rest);
        assert(n == n % 256 + 256 * (n / 256)) by (nonlinear_arith);
    }
}

/// An operand written with `write_bytes` reads back with `read_bytes`: the
/// `count` bytes of `n` (below 256 to the `count`) written at the end of
/// `code`, with anything after them, read from where they start give `n`,
/// and the read ends right after them.
pub proof fn law_operand_round_trip(code: Seq<u8>, n: nat, count: nat, after: Seq<u8>)
    requires
        n < pow256(count),
    ensures
        read_operand(code + le_bytes(n, count) + after, code.len() as int, count) == (
            n,
            (code.len() + count) as int,
        ),
{
    law_le_roundtrip(n, count);
    let all = code + le_bytes(n, count) + after;
    assert(all.subrange(code.len() as int, (code.len() + count) as int) =~= le_bytes(n, count));
}

proof fn lemma_le_value_bound(bytes: Seq<u8>)
    ensures
        le_value(bytes) < pow256(bytes.len()),
    decreases bytes.len(),
{
    if bytes.len() > 0 {
        lemma_le_value_bound(bytes.drop_first());
        let r = le_value(bytes.drop_first());
        let p = pow256((bytes.len() - 1) as nat);
        assert(bytes[0] + 256 * r < 256 * p) by (nonlinear_arith)
            requires
                bytes[0] < 256,
                r < p,
        ;
    }
}

proof fn lemma_le_value_push(bytes: Seq<u8>, b: u8)
    ensures
        le_value(bytes.push(b)) == le_value(bytes) + b * pow256(bytes.len()),
    decreases bytes.len(),
{
    if bytes.len() == 0 {
        assert(bytes.push(b).drop_first() =~= Seq::<u8>::empty());
        assert(le_value(Seq::<u8>::empty()) == 0);
        assert(bytes.push(b)[0] == b);
        assert(le_value(bytes.push(b)) == b as nat);
        assert(pow256(0) == 1);
        assert(b * 1 == b);
    } else {
        let df = bytes.drop_first();
        assert(bytes.push(b).drop_first() =~= df.push(b));
        lemma_le_value_push(df, b);
        let p = pow256(df.len());
        assert(pow256(bytes.len()) == 256 * p);
        assert(le_value(bytes.push(b)) == bytes[0] as nat + 256 * le_value(df.push(b)));
        assert(le_value(df.push(b)) == le_value(df) + b * p);
        assert(256 * (le_value(df) + b * p) == 256 * le_value(df) + b * (256 * p)) by (nonlinear_arith);
    }
}

proof fn lemma_pow256_step(n: nat)
    ensures
        pow256(n + 1) == 256 * pow256(n),
        pow256(n) < pow256(n + 1),
{
    lemma_pow256_positive(n);
}

proof fn lemma_pow256_mono(a: nat, b: nat)
    requires
        a <= b,
    ensures
        pow256(a) <= pow256(b),
    decreases b - a,
{
    if a < b {
        lemma_pow256_mono(a, (b - 1) as nat);
        lemma_pow256_step((b - 1) as nat);
    }
}

/// Byte `i` of the `count` low bytes of `n`.
proof fn lemma_le_bytes_index(n: nat, count: nat, i: nat)
    requires
        i < count,
    ensures
        le_bytes(n, count).len() == count,
        le_bytes(n, count)[i as int] == ((n / pow256(i)) % 256) as u8,
    decreases i,
{
    lemma_le_bytes_len(n, count);
    if i == 0 {
        assert(n / 1 == n);
    } else {
        lemma_le_bytes_index(n / 256, (count - 1) as nat, (i - 1) as nat);
        lemma_pow256_positive((i - 1) as nat);
        vstd::arithmetic::div_mod::lemma_div_denominator(n as int, 256, pow256((i - 1) as nat) as int);
    }
}

pub proof fn lemma_le_bytes_len(n: nat, count: nat)
    ensures
        le_bytes(n, count).len() == count,
    decreases count,
{
    if count > 0 {
        lemma_le_bytes_len(n / 256, (count - 1) as nat);
    }
}

// ---------------------------------------------------------------------------
// Decoding.
// ---------------------------------------------------------------------------

/// How many operand bytes follow an operation.
pub open spec fn operand_width(op: OpCode) -> nat {
    match op {
        OpCode::Constant => 1,
        OpCode::ConstantLong => 3,
        _ => 0,
    }
}

/// The operand of `width` bytes from `start`, cut short at the end of `code`,
/// and the offset after it.
pub open spec fn read_operand(code: Seq<u8>, start: int, width: nat) -> (nat, int) {
    let end = if start + width <= code.len() { start + width } else { code.len() as int };
    (le_value(code.subrange(start, end)), end)
}

/// The instruction that a constant operation with operand `index` loads.
pub open spec fn constant_at(constants: Seq<Value>, index: nat) -> Instruction {
    Instruction::Constant(constants[index as int])
}

/// The instruction that starts at `offset` and the offset after it.
pub open spec fn decode_at(code: Seq<u8>, constants: Seq<Value>, offset: int) -> (Instruction, int) {
    let b = code[offset];
    match opcode_of(b) {
        Ok(OpCode::Return) => (Instruction::Return, offset + 1),
        Ok(OpCode::Constant) => {
            let (index, end) = read_operand(code, offset + 1, 1);
            (constant_at(constants, index), end)
        },
        Ok(OpCode::ConstantLong) => {
            let (index, end) = read_operand(code, offset + 1, 3);
            (constant_at(constants, index), end)
        },
        Ok(OpCode::Add) => (Instruction::Add, offset + 1),
        Ok(OpCode::Subtract) => (Instruction::Subtract, offset + 1),
        Ok(OpCode::Multiply) => (Instruction::Multiply, offset + 1),
        Ok(OpCode::Divide) => (Instruction::Divide, offset + 1),
        Ok(OpCode::Negate) => (Instruction::Negate, offset + 1),
        Err(_) => (Instruction::Unknown(b), offset + 1),
    }
}

/// An instruction starts at `offset` and, where it loads a constant, the
/// constant exists.
pub open spec fn decodable_at(code: Seq<u8>, constants: Seq<Value>, offset: int) -> bool {
    &&& 0 <= offset < code.len()
    &&& match opcode_of(code[offset]) {
        Ok(OpCode::Constant) => read_operand(code, offset + 1, 1).0 < constants.len(),
        Ok(OpCode::ConstantLong) => read_operand(code, offset + 1, 3).0 < constants.len(),
        _ => true,
    }
}

/// From `offset` on, `code` is a sequence of decodable instructions.
pub open spec fn decodes_from(code: Seq<u8>, constants: Seq<Value>, offset: int) -> bool
    decreases code.len() - offset,
{
    if offset == code.len() {
        true
    } else {
        &&& decodable_at(code, constants, offset)
        &&& offset < decode_at(code, constants, offset).1
        &&& decodes_from(code, constants, decode_at(code, constants, offset).1)
    }
}

// ---------------------------------------------------------------------------
// Encoding.
// ---------------------------------------------------------------------------

/// The bytes that load the constant with index `index`: a short form for
/// the first 256 constants, else a long form whose operand keeps the index's
/// three low bytes.
pub open spec fn constant_bytes(index: nat) -> Seq<u8> {
    if index < 256 {
        seq![OpCode::Constant.code(), index as u8]
    } else {
        seq![OpCode::ConstantLong.code()] + le_bytes(index, 3)
    }
}

/// The bytes that load a constant decode, from where they start, to the
/// constant with that index, and end where they end.
pub proof fn lemma_decode_constant_bytes(code0: Seq<u8>, constants: Seq<Value>, index: nat)
    requires
        index < constants.len(),
        index < pow256(3),
    ensures
        decode_at(code0 + constant_bytes(index), constants, code0.len() as int) == (
            constant_at(constants, index),
            (code0 + constant_bytes(index)).len() as int,
        ),
        decodable_at(code0 + constant_bytes(index), constants, code0.len() as int),
{
    let code = code0 + constant_bytes(index);
    let o = code0.len() as int;
    lemma_le_bytes_len(index, 3);
    if index < 256 {
        assert(code[o] == OpCode::Constant.code());
        assert(code.subrange(o + 1, o + 2) =~= seq![index as u8]);
        assert(seq![index as u8].drop_first() =~= Seq::<u8>::empty());
        assert(le_value(Seq::<u8>::empty()) == 0);
        assert(le_value(seq![index as u8]) == index);
    } else {
        assert(code[o] == OpCode::ConstantLong.code());
        assert(code.subrange(o + 1, o + 4) =~= le_bytes(index, 3));
        law_le_roundtrip(index, 3);
    }
}

/// A chunk of bytecode as its contents: the bytes, the constants, and for
/// each byte the line of source it was written for.
pub struct ChunkView {
    pub code: Seq<u8>,
    pub constants: Seq<Value>,
    pub lines: Seq<usize>,
}

/// A chunk of bytecode. The lines are kept run-length encoded: each run holds
/// a line and the number of bytes written up to the end of the run.
pub struct Chunk {
    instructions: Vec<u8>,
    constants: Vec<Value>,
    lines: Vec<(usize, usize)>,
    byte_lines: Ghost<Seq<usize>>,
}

/// Where run `k` starts: the count of the run before it.
pub open spec fn run_start(runs: Seq<(usize, usize)>, k: int) -> int {
    if k == 0 {
        0
    } else {
        runs[k - 1].1 as int
    }
}

/// The runs encode `lines`: their counts rise from zero to the length of
/// `lines`, and each byte's line is the line of the run that holds it.
pub open spec fn runs_encode(runs: Seq<(usize, usize)>, lines: Seq<usize>) -> bool {
    &&& runs.len() == 0 ==> lines.len() == 0
    &&& runs.len() > 0 ==> runs.last().1 == lines.len()
    &&& forall|k: int| 0 <= k < runs.len() ==> run_start(runs, k) < (#[trigger] runs[k]).1 <= lines.len()
    &&& forall|k: int, o: int|
        0 <= k < runs.len() && run_start(runs, k) <= o < (#[trigger] runs[k]).1 ==> #[trigger] lines[o]
            == runs[k].0
}

/// The runs after bytes for `line` have been written up to a count of
/// `count`: the last run grows where it is for the same line, else a run
/// for `line` is added.
pub open spec fn extend_runs(runs: Seq<(usize, usize)>, line: usize, count: usize) -> Seq<(usize, usize)> {
    if runs.len() > 0 && runs.last().0 == line {
        runs.update(runs.len() - 1, (line, count))
    } else {
        runs.push((line, count))
    }
}

impl View for Chunk {
    type V = ChunkView;

    closed spec fn view(&self) -> ChunkView {
        ChunkView { code: self.instructions@, constants: self.constants@, lines: self.byte_lines@ }
    }
}

impl Chunk {
    /// The run-length encoded lines: each run holds a line and the number of
    /// bytes written up to the end of the run.
    pub closed spec fn runs(&self) -> Seq<(usize, usize)> {
        self.lines@
    }

    pub closed spec fn wf(&self) -> bool {
        &&& self.byte_lines@.len() == self.instructions@.len()
        &&& runs_encode(self.lines@, self.byte_lines@)
        &&& forall|k: int| 0 <= k < self.lines@.len() - 1 ==> (#[trigger] self.lines@[k]).0 != self.lines@[k + 1].0
    }

    /// The run-length encoded lines.
    pub fn line_runs(&self) -> (r: &Vec<(usize, usize)>)
        ensures
            r@ == self.runs(),
    {
        &self.lines
    }

    /// In a well-formed chunk the runs cover the bytes with counts that rise,
    /// and two runs side by side are for different lines.
    pub proof fn lemma_runs(&self)
        requires
            self.wf(),
        ensures
            self.runs().len() == 0 <==> self@.code.len() == 0,
            self.runs().len() > 0 ==> self.runs().last().1 == self@.code.len(),
            forall|k: int| 0 <= k < self.runs().len() ==> run_start(self.runs(), k) < (#[trigger] self.runs()[k]).1,
            forall|k: int| 0 <= k < self.runs().len() - 1 ==> (#[trigger] self.runs()[k]).0 != self.runs()[k + 1].0,
            forall|k: int, o: int|
                0 <= k < self.runs().len() && run_start(self.runs(), k) <= o < (#[trigger] self.runs()[k]).1
                    ==> #[trigger] self@.lines[o] == self.runs()[k].0,
    {
        if self.runs().len() > 0 {
            assert(run_start(self.runs(), 0) < self.runs()[0].1);
        }
    }

    /// An empty chunk.
    pub fn new() -> (c: Self)
        ensures
            c.wf(),
            c@.code == Seq::<u8>::empty(),
            c@.constants == Seq::<Value>::empty(),
            c@.lines == Seq::<usize>::empty(),
            c.runs() == Seq::<(usize, usize)>::empty(),
    {
        Self { instructions: Vec::new(), constants: Vec::new(), lines: Vec::new(), byte_lines: Ghost(Seq::empty()) }
    }

    /// Appends `byte`, written for source line `line`.
    pub fn write(&mut self, byte: u8, line: usize)
        requires
            old(self).wf(),
            old(self)@.code.len() + 1 < usize::MAX,
        ensures
            final(self).wf(),
            final(self)@.code == old(self)@.code.push(byte),
            final(self)@.lines == old(self)@.lines.push(line),
            final(self)@.constants == old(self)@.constants,
            final(self).runs() == extend_runs(old(self).runs(), line, (old(self)@.code.len() + 1) as usize),
    {
        let ghost old_runs = self.lines@;
        let ghost old_lines = self.byte_lines@;
        self.instructions.push(byte);
        self.byte_lines = Ghost(self.byte_lines@.push(line));
        let n = self.lines.len();
        if n > 0 {
            let (last_line, count) = self.lines[n - 1];
            if line == last_line {
                self.lines.set(n - 1, (last_line, count + 1));
                proof {
                    let runs = self.lines@;
                    let lines = self.byte_lines@;
                    assert forall|k: int, o: int|
                        0 <= k < runs.len() && run_start(runs, k) <= o < (#[trigger] runs[k]).1 implies #[trigger] lines[o]
                        == runs[k].0 by {
                        if k < runs.len() - 1 {
                            assert(runs[k] == old_runs[k]);
                            assert(run_start(runs, k) == run_start(old_runs, k));
                            assert(old_lines[o] == old_runs[k].0);
                        } else if o < count {
                            assert(run_start(runs, k) == run_start(old_runs, k));
                            assert(old_lines[o] == old_runs[k].0);
                        }
                    }
                    assert forall|k: int| 0 <= k < runs.len() implies run_start(runs, k) < (#[trigger] runs[k]).1 <= lines.len() by {
                        if k < runs.len() - 1 {
                            assert(runs[k] == old_runs[k]);
                        }
                        assert(run_start(runs, k) == run_start(old_runs, k));
                        assert(run_start(old_runs, k) < old_runs[k].1 <= old_lines.len());
                    }
                }
                return;
            }
        }
        let last_count = if n > 0 {
            self.lines[n - 1].1
        } else {
            0
        };
        self.lines.push((line, last_count + 1));
        proof {
            let runs = self.lines@;
            let lines = self.byte_lines@;
            assert forall|k: int, o: int|
                0 <= k < runs.len() && run_start(runs, k) <= o < (#[trigger] runs[k]).1 implies #[trigger] lines[o]
                == runs[k].0 by {
                if k < runs.len() - 1 {
                    assert(runs[k] == old_runs[k]);
                    assert(run_start(runs, k) == run_start(old_runs, k));
                    assert(old_lines[o] == old_runs[k].0);
                }
            }
            assert forall|k: int| 0 <= k < runs.len() implies run_start(runs, k) < (#[trigger] runs[k]).1 <= lines.len() by {
                if k < runs.len() - 1 {
                    assert(runs[k] == old_runs[k]);
                    assert(run_start(runs, k) == run_start(old_runs, k));
                    assert(run_start(old_runs, k) < old_runs[k].1 <= old_lines.len());
                }
            }
        }
    }

    /// Appends the `N` low bytes of `number`, the lowest first.
    fn write_bytes<const N: usize>(&mut self, number: usize, line: usize)
        requires
            old(self).wf(),
            N <= 8,
            old(self)@.code.len() + N + 1 < usize::MAX,
        ensures
            final(self).wf(),
            final(self)@.code == old(self)@.code + le_bytes(number as nat, N as nat),
            final(self)@.lines == old(self)@.lines + Seq::new(N as nat, |_j: int| line),
            final(self)@.constants == old(self)@.constants,
            N > 0 ==> final(self).runs() == extend_runs(old(self).runs(), line, final(self)@.code.len() as usize),
            N == 0 ==> final(self).runs() == old(self).runs(),
    {
        let ghost n0 = number as nat;
        let mut number = number;
        let mut i: usize = 0;
        proof {
            lemma_le_bytes_len(n0, N as nat);
            assert(pow256(0) == 1);
            assert(n0 / 1 == n0);
            assert(le_bytes(n0, N as nat).take(0) =~= Seq::<u8>::empty());
            assert(Seq::new(0, |_j: int| line) =~= Seq::<usize>::empty());
        }
        while i < N
            invariant
                self.wf(),
                i <= N,
                N <= 8,
                old(self)@.code.len() + N + 1 < usize::MAX,
                le_bytes(n0, N as nat).len() == N,
                self@.code == old(self)@.code + le_bytes(n0, N as nat).take(i as int),
                self@.lines == old(self)@.lines + Seq::new(i as nat, |_j: int| line),
                self@.constants == old(self)@.constants,
                number as nat == n0 / pow256(i as nat),
                i > 0 ==> self.runs() == extend_runs(old(self).runs(), line, self@.code.len() as usize),
                i == 0 ==> self.runs() == old(self).runs(),
            decreases N - i,
        {
            let byte = (number & 0xff) as u8;
            proof {
                assert(number & 0xff == number % 256) by (bit_vector);
                lemma_le_bytes_index(n0, N as nat, i as nat);
            }
            self.write(byte, line);
            proof {
                assert(number >> 8 == number / 256) by (bit_vector);
                lemma_pow256_positive(i as nat);
                vstd::arithmetic::div_mod::lemma_div_denominator(n0 as int, pow256(i as nat) as int, 256);
                lemma_pow256_step(i as nat);
                assert(le_bytes(n0, N as nat).take(i + 1) =~= le_bytes(n0, N as nat).take(i as int).push(byte));
                assert(Seq::new((i + 1) as nat, |_j: int| line) =~= Seq::new(i as nat, |_j: int| line).push(line));
            }
            number = number >> 8;
            i = i + 1;
        }
        proof {
            assert(le_bytes(n0, N as nat).take(N as int) =~= le_bytes(n0, N as nat));
        }
    }

    /// Reads an operand of `N` bytes, the lowest first, from `offset`, cut
    /// short at the end of the code; gives the operand and the offset after it.
    fn read_bytes<const N: usize>(code: &Vec<u8>, offset: usize) -> (r: (usize, usize))
        requires
            N <= 8,
            pow256(N as nat) <= usize::MAX + 1,
            offset <= code@.len(),
        ensures
            (r.0 as nat, r.1 as int) == read_operand(code@, offset as int, N as nat),
    {
        let mut number: usize = 0;
        let mut scale: usize = 1;
        let mut i: usize = 0;
        let len = code.len();
        proof {
            assert(code@.subrange(offset as int, offset as int) =~= Seq::<u8>::empty());
        }
        while i < N && offset + i < len
            invariant
                len == code@.len(),
                N <= 8,
                pow256(N as nat) <= usize::MAX + 1,
                offset <= code@.len(),
                i <= N,
                offset + i <= code@.len(),
                number as nat == le_value(code@.subrange(offset as int, offset + i)),
                i < N ==> scale as nat == pow256(i as nat),
            decreases N - i,
        {
            let byte = code[offset + i];
            proof {
                lemma_le_value_push(code@.subrange(offset as int, offset + i), byte);
                assert(code@.subrange(offset as int, offset + i + 1) =~= code@.subrange(offset as int, offset + i).push(byte));
                lemma_le_value_bound(code@.subrange(offset as int, offset + i + 1));
                lemma_pow256_mono((i + 1) as nat, N as nat);
                lemma_le_value_bound(code@.subrange(offset as int, offset + i));
                assert(byte as nat * pow256(i as nat) <= 255 * pow256(i as nat)) by (nonlinear_arith)
                    requires
                        byte < 256,
                ;
                lemma_pow256_step(i as nat);
            }
            number = number + (byte as usize) * scale;
            if i + 1 < N {
                proof {
                    lemma_pow256_step(i as nat);
                    lemma_pow256_mono((i + 1) as nat, (N - 1) as nat);
                    lemma_pow256_step((N - 1) as nat);
                }
                scale = scale * 256;
            }
            i = i + 1;
        }
        (number, offset + i)
    }

    /// Adds `value` to the constants and appends the operation that loads it:
    /// a short form for the first 256 constants, else a long form with the
    /// index's three low bytes. Read back, the operation loads `value`
    /// wherever the index fits in three bytes.
    #[verifier::rlimit(60)]
    pub fn write_constant(&mut self, value: Value, line: usize)
        requires
            old(self).wf(),
            old(self)@.code.len() + 6 < usize::MAX,
        ensures
            final(self).wf(),
            final(self)@.constants == old(self)@.constants.push(value),
            final(self)@.code == old(self)@.code + constant_bytes(old(self)@.constants.len()),
            final(self)@.lines == old(self)@.lines + Seq::new(
                constant_bytes(old(self)@.constants.len()).len(),
                |_j: int| line,
            ),
            old(self)@.constants.len() < pow256(3) ==> decode_at(
                final(self)@.code,
                final(self)@.constants,
                old(self)@.code.len() as int,
            ) == (Instruction::Constant(value), final(self)@.code.len() as int),
            old(self)@.constants.len() < pow256(3) ==> decodable_at(
                final(self)@.code,
                final(self)@.constants,
                old(self)@.code.len() as int,
            ),
            final(self).runs() == extend_runs(old(self).runs(), line, final(self)@.code.len() as usize),
    {
        let constant_index = self.constants.len();
        self.constants.push(value);
        let ghost code0 = self@.code;
        if constant_index < 256 {
            self.write(OpCode::Constant.byte(), line);
            self.write(constant_index as u8, line);
            proof {
                assert(self@.code =~= code0 + constant_bytes(constant_index as nat));
                assert(self@.lines =~= old(self)@.lines + Seq::new(2, |_j: int| line));
            }
        } else {
            self.write(OpCode::ConstantLong.byte(), line);
            self.write_bytes::<3>(constant_index, line);
            proof {
                lemma_le_bytes_len(constant_index as nat, 3);
                assert(self@.code =~= code0 + constant_bytes(constant_index as nat));
                assert(self@.lines =~= old(self)@.lines + Seq::new(4, |_j: int| line));
            }
        }
        proof {
            if constant_index < pow256(3) {
                lemma_decode_constant_bytes(code0, self@.constants, constant_index as nat);
            }
        }
    }

    /// The line of source that the byte at `offset` was written for.
    pub fn get_line(&self, offset: usize) -> (line: usize)
        requires
            self.wf(),
            offset < self@.code.len(),
        ensures
            line == self@.lines[offset as int],
    {
        let n = self.lines.len();
        let mut i: usize = 0;
        while i < n
            invariant
                self.wf(),
                n == self.lines@.len(),
                offset < self@.code.len(),
                i <= n,
                i > 0 ==> self.lines@[i - 1].1 <= offset,
            decreases n - i,
        {
            let (line, count) = self.lines[i];
            if offset < count {
                proof {
                    assert(run_start(self.lines@, i as int) <= offset);
                }
                return line;
            }
            i = i + 1;
        }
        proof {
            assert(self.lines@.last().1 == self@.code.len());
        }
        0
    }
}

} // verus!

verus! {

/// A walk over the instructions of a chunk.
pub struct ChunkIter<'a> {
    chunk: &'a Chunk,
    offset: usize,
    current: usize,
}

impl<'a> ChunkIter<'a> {
    /// The contents of the chunk walked over.
    pub closed spec fn chunk(&self) -> ChunkView {
        self.chunk@
    }

    /// The offset of the next instruction.
    pub closed spec fn offset(&self) -> int {
        self.offset as int
    }

    /// The offset of the instruction handed out last.
    pub closed spec fn current(&self) -> int {
        self.current as int
    }

    pub closed spec fn wf(&self) -> bool {
        &&& self.chunk.wf()
        &&& self.offset <= self.chunk@.code.len()
        &&& self.current <= self.offset
        &&& (self.offset > 0 ==> self.current < self.offset)
    }

    /// Whether an instruction is left.
    pub fn has_next(&self) -> (b: bool)
        requires
            self.wf(),
        ensures
            b == (self.offset() < self.chunk().code.len()),
    {
        self.offset < self.chunk.instructions.len()
    }

    /// Hands out the next instruction with its offset; `None` at the end.
    pub fn next(&mut self) -> (r: Option<(usize, Instruction)>)
        requires
            old(self).wf(),
            old(self).offset() < old(self).chunk().code.len() ==> decodable_at(
                old(self).chunk().code,
                old(self).chunk().constants,
                old(self).offset(),
            ),
        ensures
            final(self).wf(),
            final(self).chunk() == old(self).chunk(),
            old(self).offset() == old(self).chunk().code.len() ==> r is None && final(self).offset() == old(self).offset()
                && final(self).current() == old(self).current(),
            old(self).offset() < old(self).chunk().code.len() ==> ({
                let (instruction, next) = decode_at(old(self).chunk().code, old(self).chunk().constants, old(self).offset());
                &&& r == Some((old(self).offset() as usize, instruction))
                &&& final(self).offset() == next
                &&& final(self).current() == old(self).offset()
            }),
    {
        if self.offset >= self.chunk.instructions.len() {
            return None;
        }
        let offset = self.offset;
        let byte = self.chunk.instructions[offset];
        let instruction = match OpCode::try_from(byte) {
            Ok(OpCode::Return) => {
                self.offset = offset + 1;
                Instruction::Return
            },
            Ok(OpCode::Constant) => {
                proof {
                    lemma_pow256_step(0);
                }
                let (index, next) = Chunk::read_bytes::<1>(&self.chunk.instructions, offset + 1);
                self.offset = next;
                Instruction::Constant(self.chunk.constants[index])
            },
            Ok(OpCode::ConstantLong) => {
                proof {
                    lemma_pow256_step(0);
                    lemma_pow256_step(1);
                    lemma_pow256_step(2);
                }
                let (index, next) = Chunk::read_bytes::<3>(&self.chunk.instructions, offset + 1);
                self.offset = next;
                Instruction::Constant(self.chunk.constants[index])
            },
            Ok(OpCode::Add) => {
                self.offset = offset + 1;
                Instruction::Add
            },
            Ok(OpCode::Subtract) => {
                self.offset = offset + 1;
                Instruction::Subtract
            },
            Ok(OpCode::Multiply) => {
                self.offset = offset + 1;
                Instruction::Multiply
            },
            Ok(OpCode::Divide) => {
                self.offset = offset + 1;
                Instruction::Divide
            },
            Ok(OpCode::Negate) => {
                self.offset = offset + 1;
                Instruction::Negate
            },
            Err(_) => {
                self.offset = offset + 1;
                Instruction::Unknown(byte)
            },
        };
        self.current = offset;
        Some((offset, instruction))
    }

    /// The source line of the instruction handed out last.
    pub fn line(&self) -> (line: usize)
        requires
            self.wf(),
            self.offset() > 0,
        ensures
            0 <= self.current() < self.offset(),
            line == self.chunk().lines[self.current()],
    {
        self.chunk.get_line(self.current)
    }
}

impl Chunk {
    /// A walk over this chunk's instructions from the first.
    pub fn iter<'a>(&'a self) -> (it: ChunkIter<'a>)
        requires
            self.wf(),
        ensures
            it.wf(),
            it.chunk() == self@,
            it.offset() == 0,
            it.current() == 0,
    {
        ChunkIter { chunk: self, offset: 0, current: 0 }
    }
}

} // verus!

verus! {

impl OpCode {
    /// The variant's identifier.
    pub open spec fn ident_text(self) -> Seq<char> {
        match self {
            OpCode::Return => "Return"@,
            OpCode::Constant => "Constant"@,
            OpCode::ConstantLong => "ConstantLong"@,
            OpCode::Add => "Add"@,
            OpCode::Subtract => "Subtract"@,
            OpCode::Multiply => "Multiply"@,
            OpCode::Divide => "Divide"@,
            OpCode::Negate => "Negate"@,
        }
    }

    /// The variant's identifier.
    pub fn ident(&self) -> (name: &'static str)
        ensures
            name@ == self.ident_text(),
    {
        match self {
            OpCode::Return => "Return",
            OpCode::Constant => "Constant",
            OpCode::ConstantLong => "ConstantLong",
            OpCode::Add => "Add",
            OpCode::Subtract => "Subtract",
            OpCode::Multiply => "Multiply",
            OpCode::Divide => "Divide",
            OpCode::Negate => "Negate",
        }
    }

    /// The variant's name as the bytecode's debugging output writes it,
    /// such as `OP_CONSTANT_LONG`.
    pub fn debug_name(&self) -> (name: String)
        ensures
            name@ == c_style_name("OP"@, self.ident_text()),
    {
        c_style("OP", self.ident())
    }
}

} // verus!

verus! {

/// The operation part of a disassembled instruction.
#[derive(Debug, Clone, Copy, PartialEq, Eq, Structural)]
pub enum DisassembledOp {
    Simple(OpCode),
    Constant(OpCode, usize, Value),
    Unknown(u8),
}

/// One line of a disassembly: the instruction's offset, its source line
/// (`None` where it is the line of the byte before, shown as `|`), and its
/// operation.
#[derive(Debug, Clone, Copy, PartialEq, Eq, Structural)]
pub struct Disassembly {
    pub offset: usize,
    pub line: Option<usize>,
    pub op: DisassembledOp,
}

impl Chunk {
    /// Disassembles the instruction at `offset`; gives the offset after it too.
    pub fn disassemble_instruction(&self, offset: usize) -> (r: (Disassembly, usize))
        requires
            self.wf(),
            decodable_at(self@.code, self@.constants, offset as int),
        ensures
            r.0.offset == offset,
            r.0.line == (if offset > 0 && self@.lines[offset as int] == self@.lines[offset - 1] {
                None
            } else {
                Some(self@.lines[offset as int])
            }),
            r.1 == decode_at(self@.code, self@.constants, offset as int).1,
            ({
                let b = self@.code[offset as int];
                match opcode_of(b) {
                    Ok(OpCode::Constant) | Ok(OpCode::ConstantLong) => {
                        let index = read_operand(self@.code, offset + 1, operand_width(opcode_of(b)->Ok_0)).0;
                        r.0.op == DisassembledOp::Constant(opcode_of(b)->Ok_0, index as usize, self@.constants[index as int])
                    },
                    Ok(op) => r.0.op == DisassembledOp::Simple(op),
                    Err(_) => r.0.op == DisassembledOp::Unknown(b),
                }
            }),
    {
        let line = self.get_line(offset);
        let prev_line = self.get_line(if offset > 0 { offset - 1 } else { 0 });
        let shown = if offset > 0 && line == prev_line {
            None
        } else {
            Some(line)
        };
        let byte = self.instructions[offset];
        let (op, next) = match OpCode::try_from(byte) {
            Ok(OpCode::Constant) => {
                proof {
                    lemma_pow256_step(0);
                }
                let (index, next) = Self::read_bytes::<1>(&self.instructions, offset + 1);
                (DisassembledOp::Constant(OpCode::Constant, index, self.constants[index]), next)
            },
            Ok(OpCode::ConstantLong) => {
                proof {
                    lemma_pow256_step(0);
                    lemma_pow256_step(1);
                    lemma_pow256_step(2);
                }
                let (index, next) = Self::read_bytes::<3>(&self.instructions, offset + 1);
                (DisassembledOp::Constant(OpCode::ConstantLong, index, self.constants[index]), next)
            },
            Ok(op) => (DisassembledOp::Simple(op), offset + 1),
            Err(_) => (DisassembledOp::Unknown(byte), offset + 1),
        };
        (Disassembly { offset, line: shown, op }, next)
    }
}

} // verus!

verus! {

/// The operations' bytes are their places in the list of operations, from
/// `Return` at 0 to `Negate` at 7.
pub proof fn law_opcode_order()
    ensures
        OpCode::Return.code() == 0,
        OpCode::Constant.code() == 1,
        OpCode::ConstantLong.code() == 2,
        OpCode::Add.code() == 3,
        OpCode::Subtract.code() == 4,
        OpCode::Multiply.code() == 5,
        OpCode::Divide.code() == 6,
        OpCode::Negate.code() == 7,
{
}

/// An operand's bytes come lowest first: byte `k` is the `k`-th digit of the
/// number in base 256.
pub proof fn law_le_bytes_digits(n: nat, count: nat, k: int)
    requires
        0 <= k < count,
    ensures
        le_bytes(n, count).len() == count,
        le_bytes(n, count)[k] == (n / pow256(k as nat)) % 256,
{
    lemma_le_bytes_index(n, count, k as nat);
    lemma_pow256_positive(k as nat);
}

/// The first 256 constants load with a two-byte instruction, `Constant` and
/// the index; later ones with four bytes, `ConstantLong` and the index's
/// three low bytes, lowest first.
pub proof fn law_constant_forms(index: nat)
    ensures
        index < 256 ==> constant_bytes(index) == seq![1u8, index as u8],
        index >= 256 ==> constant_bytes(index).len() == 4 && constant_bytes(index)[0] == 2 && constant_bytes(
            index,
        )[1] == index % 256 && constant_bytes(index)[2] == (index / 256) % 256 && constant_bytes(index)[3] == (
        index / 65536) % 256,
{
    if index >= 256 {
        law_le_bytes_digits(index, 3, 0);
        law_le_bytes_digits(index, 3, 1);
        law_le_bytes_digits(index, 3, 2);
        assert(pow256(0) == 1);
        assert(pow256(1) == 256) by {
            assert(pow256(0) == 1);
        }
        assert(pow256(2) == 65536) by {
            assert(pow256(1) == 256);
        }
    }
}

} // verus!
