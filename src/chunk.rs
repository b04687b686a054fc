//! A chunk of bytecode: the code, its constant pool and its line table.
use crate::line_encoding::LineEncoding;
use crate::value::{ConstArray, Value, ValueModel};
use byteorder::{BigEndian, ByteOrder};
use vstd::prelude::*;

verus! {

/// Number of constants one chunk can address: a `ConstantLong` operand has
/// 24 bits.
pub const MAX_CONSTANTS: usize = 0x100_0000;

/// Largest constant index that a `Constant` operand of one byte holds.
pub const MAX_SHORT_CONSTANT: usize = 255;

/// The instructions of the virtual machine, one byte each.
#[derive(Clone, Copy, Debug, PartialEq, Eq, Structural)]
pub enum OpCode {
    OpReturn,
    OpConstant,
    OpConstantLong,
    OpNegate,
    OpAdd,
    OpSubtract,
    OpMultiply,
    OpDivide,
    OpNil,
    OpTrue,
    OpFalse,
    OpNot,
    OpEqual,
    OpGreater,
    OpLess,
}

/// The byte that encodes an instruction.
pub open spec fn op_byte(op: OpCode) -> u8 {
    match op {
        OpCode::OpReturn => 0,
        OpCode::OpConstant => 1,
        OpCode::OpConstantLong => 2,
        OpCode::OpNegate => 3,
        OpCode::OpAdd => 4,
        OpCode::OpSubtract => 5,
        OpCode::OpMultiply => 6,
        OpCode::OpDivide => 7,
        OpCode::OpNil => 8,
        OpCode::OpTrue => 9,
        OpCode::OpFalse => 10,
        OpCode::OpNot => 11,
        OpCode::OpEqual => 12,
        OpCode::OpGreater => 13,
        OpCode::OpLess => 14,
    }
}

/// The instruction that a byte encodes, if any.
pub open spec fn byte_op(b: u8) -> Option<OpCode> {
    if b == 0 {
        Some(OpCode::OpReturn)
    } else if b == 1 {
        Some(OpCode::OpConstant)
    } else if b == 2 {
        Some(OpCode::OpConstantLong)
    } else if b == 3 {
        Some(OpCode::OpNegate)
    } else if b == 4 {
        Some(OpCode::OpAdd)
    } else if b == 5 {
        Some(OpCode::OpSubtract)
    } else if b == 6 {
        Some(OpCode::OpMultiply)
    } else if b == 7 {
        Some(OpCode::OpDivide)
    } else if b == 8 {
        Some(OpCode::OpNil)
    } else if b == 9 {
        Some(OpCode::OpTrue)
    } else if b == 10 {
        Some(OpCode::OpFalse)
    } else if b == 11 {
        Some(OpCode::OpNot)
    } else if b == 12 {
        Some(OpCode::OpEqual)
    } else if b == 13 {
        Some(OpCode::OpGreater)
    } else if b == 14 {
        Some(OpCode::OpLess)
    } else {
        None
    }
}

impl OpCode {
    pub fn to_byte(self) -> (r: u8)
        ensures
            r == op_byte(self),
    {
        match self {
            OpCode::OpReturn => 0,
            OpCode::OpConstant => 1,
            OpCode::OpConstantLong => 2,
            OpCode::OpNegate => 3,
            OpCode::OpAdd => 4,
            OpCode::OpSubtract => 5,
            OpCode::OpMultiply => 6,
            OpCode::OpDivide => 7,
            OpCode::OpNil => 8,
            OpCode::OpTrue => 9,
            OpCode::OpFalse => 10,
            OpCode::OpNot => 11,
            OpCode::OpEqual => 12,
            OpCode::OpGreater => 13,
            OpCode::OpLess => 14,
        }
    }

    /// The instruction that `byte` encodes, or `None` for a byte that encodes
    /// none.
    pub fn from_byte(byte: u8) -> (r: Option<OpCode>)
        ensures
            r == byte_op(byte),
    {
        match byte {
            0 => Some(OpCode::OpReturn),
            1 => Some(OpCode::OpConstant),
            2 => Some(OpCode::OpConstantLong),
            3 => Some(OpCode::OpNegate),
            4 => Some(OpCode::OpAdd),
            5 => Some(OpCode::OpSubtract),
            6 => Some(OpCode::OpMultiply),
            7 => Some(OpCode::OpDivide),
            8 => Some(OpCode::OpNil),
            9 => Some(OpCode::OpTrue),
            10 => Some(OpCode::OpFalse),
            11 => Some(OpCode::OpNot),
            12 => Some(OpCode::OpEqual),
            13 => Some(OpCode::OpGreater),
            14 => Some(OpCode::OpLess),
            _ => None,
        }
    }

    /// The instruction's name.
    pub fn name(self) -> &'static str {
        match self {
            OpCode::OpReturn => "OpReturn",
            OpCode::OpConstant => "OpConstant",
            OpCode::OpConstantLong => "OpConstantLong",
            OpCode::OpNegate => "OpNegate",
            OpCode::OpAdd => "OpAdd",
            OpCode::OpSubtract => "OpSubtract",
            OpCode::OpMultiply => "OpMultiply",
            OpCode::OpDivide => "OpDivide",
            OpCode::OpNil => "OpNil",
            OpCode::OpTrue => "OpTrue",
            OpCode::OpFalse => "OpFalse",
            OpCode::OpNot => "OpNot",
            OpCode::OpEqual => "OpEqual",
            OpCode::OpGreater => "OpGreater",
            OpCode::OpLess => "OpLess",
        }
    }
}

/// The big-endian `u32` of four bytes.
pub open spec fn be_u32(b: Seq<u8>) -> u32 {
    ((b[0] as u32) << 24u32) | ((b[1] as u32) << 16u32) | ((b[2] as u32) << 8u32) | (b[3] as u32)
}

/// The four bytes of `n`, most significant first.
pub open spec fn be_bytes(n: u32) -> Seq<u8> {
    seq![
        ((n >> 24u32) & 0xff) as u8,
        ((n >> 16u32) & 0xff) as u8,
        ((n >> 8u32) & 0xff) as u8,
        (n & 0xff) as u8,
    ]
}

/// The three bytes of a 24-bit operand, most significant first.
pub open spec fn u24_bytes(n: u32) -> Seq<u8> {
    be_bytes(n).subrange(1, 4)
}

/// The big-endian number in three bytes, or in four whose first is zero.
pub open spec fn u24_value(b: Seq<u8>) -> u32 {
    if b.len() == 3 {
        be_u32(seq![0u8] + b)
    } else {
        be_u32(b)
    }
}

/// A buffer that `read_u24` accepts.
pub open spec fn u24_readable(b: Seq<u8>) -> bool {
    b.len() == 3 || (b.len() == 4 && b[0] == 0)
}

/// Relies on byteorder's `BigEndian::write_u32`: the bytes of `n`, most
/// significant first.
#[verifier::external_body]
fn write_be_u32(n: u32) -> (r: [u8; 4])
    ensures
        r@ == be_bytes(n),
{
    let mut buf = [0u8; 4];
    BigEndian::write_u32(&mut buf, n);
    buf
}

/// Relies on byteorder's `BigEndian::read_u32`: the four bytes read most
/// significant first.
#[verifier::external_body]
fn read_be_u32(buf: [u8; 4]) -> (r: u32)
    ensures
        r == be_u32(buf@),
{
    BigEndian::read_u32(&buf)
}

/// The 24-bit operand of `n`, most significant byte first.
pub fn write_u24(n: u32) -> (r: Vec<u8>)
    requires
        n <= 0xff_ffff,
    ensures
        r@ == u24_bytes(n),
        r@.len() == 3,
{
    let buf = write_be_u32(n);
    let mut out: Vec<u8> = Vec::new();
    out.push(buf[1]);
    out.push(buf[2]);
    out.push(buf[3]);
    assert(out@ =~= u24_bytes(n));
    out
}

/// The 24-bit number in `buf`: three bytes, or four whose first is zero.
pub fn read_u24(buf: &[u8]) -> (r: u32)
    requires
        u24_readable(buf@),
    ensures
        r == u24_value(buf@),
        r <= 0xff_ffff,
{
    let mut word = [0u8; 4];
    if buf.len() == 3 {
        word[1] = buf[0];
        word[2] = buf[1];
        word[3] = buf[2];
        assert(word@ =~= seq![0u8] + buf@);
    } else {
        word[1] = buf[1];
        word[2] = buf[2];
        word[3] = buf[3];
        assert(word@ =~= buf@);
    }
    let r = read_be_u32(word);
    let (b1, b2, b3) = (word[1], word[2], word[3]);
    assert(((0u8 as u32) << 24u32) | ((b1 as u32) << 16u32) | ((b2 as u32) << 8u32) | (b3 as u32)
        <= 0xff_ffff) by (bit_vector);
    r
}

/// Reading back what `write_u24` wrote gives the number written.
pub proof fn lemma_u24_round_trip(n: u32)
    requires
        n <= 0xff_ffff,
    ensures
        u24_bytes(n).len() == 3,
        u24_readable(u24_bytes(n)),
        u24_value(u24_bytes(n)) == n,
{
    let b = u24_bytes(n);
    assert(seq![0u8] + b =~= seq![0u8, b[0], b[1], b[2]]);
    let b0 = ((n >> 16u32) & 0xff) as u8;
    let b1 = ((n >> 8u32) & 0xff) as u8;
    let b2 = (n & 0xff) as u8;
    assert(((0u8 as u32) << 24u32) | ((b0 as u32) << 16u32) | ((b1 as u32) << 8u32) | (b2 as u32)
        == n) by (bit_vector)
        requires
            n <= 0xff_ffff,
            b0 == ((n >> 16u32) & 0xff) as u8,
            b1 == ((n >> 8u32) & 0xff) as u8,
            b2 == (n & 0xff) as u8,
    ;
}

/// The bytes of the instruction that pushes constant `index`: `Constant`
/// with one byte of index up to 255, `ConstantLong` with three beyond.
pub open spec fn constant_instruction(index: int) -> Seq<u8> {
    if index <= MAX_SHORT_CONSTANT {
        seq![op_byte(OpCode::OpConstant), index as u8]
    } else {
        seq![op_byte(OpCode::OpConstantLong)] + u24_bytes(index as u32)
    }
}

/// Number of values an instruction takes from the stack.
pub open spec fn pops(op: OpCode) -> int {
    match op {
        OpCode::OpReturn | OpCode::OpNegate | OpCode::OpNot => 1,
        OpCode::OpAdd | OpCode::OpSubtract | OpCode::OpMultiply | OpCode::OpDivide
        | OpCode::OpEqual | OpCode::OpGreater | OpCode::OpLess => 2,
        _ => 0,
    }
}

/// Number of values an instruction puts on the stack.
pub open spec fn pushes(op: OpCode) -> int {
    match op {
        OpCode::OpReturn => 0,
        _ => 1,
    }
}

/// Number of bytes of an instruction, operand included.
pub open spec fn instr_size(op: OpCode) -> int {
    match op {
        OpCode::OpConstant => 2,
        OpCode::OpConstantLong => 4,
        _ => 1,
    }
}

/// The constant index of the instruction at the start of `seg`.
pub open spec fn operand(op: OpCode, seg: Seq<u8>) -> int {
    if op == OpCode::OpConstant {
        seg[1] as int
    } else {
        u24_value(seg.subrange(1, 4)) as int
    }
}

/// The stack depth after running `seg` from depth `d` with `n` constants in
/// the pool; `None` unless `seg` is whole instructions, none of which
/// returns, takes a value that is not on the stack, or names a constant past
/// the pool.
pub open spec fn stack_after(seg: Seq<u8>, d: int, n: int) -> Option<int>
    decreases seg.len(),
{
    if seg.len() == 0 {
        Some(d)
    } else {
        match byte_op(seg[0]) {
            None => None,
            Some(op) => {
                if op == OpCode::OpReturn || instr_size(op) > seg.len() || d < pops(op) || ((op
                    == OpCode::OpConstant || op == OpCode::OpConstantLong) && operand(op, seg)
                    >= n) {
                    None
                } else {
                    stack_after(seg.subrange(instr_size(op), seg.len() as int), d - pops(op) + pushes(op), n)
                }
            },
        }
    }
}

/// The code of one expression: run from an empty stack, it leaves one value.
pub open spec fn expression_code(seg: Seq<u8>, n: int) -> bool {
    stack_after(seg, 0, n) == Some(1int)
}

/// Code that takes one value and leaves one, as an infix operator with its
/// right operand does.
pub open spec fn operator_code(seg: Seq<u8>, n: int) -> bool {
    stack_after(seg, 1, n) == Some(1int)
}

/// Running two pieces of code one after the other.
pub proof fn lemma_stack_after_concat(s1: Seq<u8>, s2: Seq<u8>, d: int, n: int)
    requires
        stack_after(s1, d, n) is Some,
    ensures
        stack_after(s1 + s2, d, n) == stack_after(s2, stack_after(s1, d, n).unwrap(), n),
    decreases s1.len(),
{
    if s1.len() == 0 {
        assert(s1 + s2 =~= s2);
    } else {
        let op = byte_op(s1[0]).unwrap();
        let k = instr_size(op);
        assert((s1 + s2)[0] == s1[0]);
        assert((s1 + s2).subrange(k, (s1 + s2).len() as int) =~= s1.subrange(k, s1.len() as int)
            + s2);
        if op == OpCode::OpConstant {
            assert((s1 + s2)[1] == s1[1]);
        }
        if op == OpCode::OpConstantLong {
            assert((s1 + s2).subrange(1, 4) =~= s1.subrange(1, 4));
        }
        lemma_stack_after_concat(s1.subrange(k, s1.len() as int), s2, d - pops(op) + pushes(op), n);
    }
}

/// More values below do not change what the code does.
pub proof fn lemma_stack_after_deeper(s: Seq<u8>, d: int, k: int, n: int)
    requires
        stack_after(s, d, n) is Some,
        k >= 0,
    ensures
        stack_after(s, d + k, n) == Some(stack_after(s, d, n).unwrap() + k),
    decreases s.len(),
{
    if s.len() > 0 {
        let op = byte_op(s[0]).unwrap();
        lemma_stack_after_deeper(
            s.subrange(instr_size(op), s.len() as int),
            d - pops(op) + pushes(op),
            k,
            n,
        );
    }
}

/// More constants in the pool do not change what the code does.
pub proof fn lemma_stack_after_more_constants(s: Seq<u8>, d: int, n: int, m: int)
    requires
        stack_after(s, d, n) is Some,
        n <= m,
    ensures
        stack_after(s, d, m) == stack_after(s, d, n),
    decreases s.len(),
{
    if s.len() > 0 {
        let op = byte_op(s[0]).unwrap();
        lemma_stack_after_more_constants(
            s.subrange(instr_size(op), s.len() as int),
            d - pops(op) + pushes(op),
            n,
            m,
        );
    }
}

/// The instruction that pushes a constant of the pool pushes one value.
pub proof fn lemma_constant_instruction(index: int, d: int, n: int)
    requires
        0 <= index < n,
        index < MAX_CONSTANTS,
        d >= 0,
    ensures
        stack_after(constant_instruction(index), d, n) == Some(d + 1),
{
    let s = constant_instruction(index);
    if index > MAX_SHORT_CONSTANT {
        lemma_u24_round_trip(index as u32);
        assert(s.subrange(1, 4) =~= u24_bytes(index as u32));
    }
    assert(s.subrange(s.len() as int, s.len() as int) =~= Seq::<u8>::empty());
    reveal_with_fuel(stack_after, 2);
}

/// An instruction of one byte that takes `pops` values and pushes one.
pub proof fn lemma_simple_instruction(op: OpCode, d: int, n: int)
    requires
        op != OpCode::OpReturn,
        op != OpCode::OpConstant,
        op != OpCode::OpConstantLong,
        d >= pops(op),
    ensures
        stack_after(seq![op_byte(op)], d, n) == Some(d - pops(op) + 1),
{
    let s = seq![op_byte(op)];
    assert(byte_op(op_byte(op)) == Some(op));
    assert(s.subrange(1, 1) =~= Seq::<u8>::empty());
    reveal_with_fuel(stack_after, 2);
}

/// `count` copies of `line`.
pub open spec fn same_line(line: u32, count: int) -> Seq<u32> {
    Seq::new(count as nat, |_i: int| line)
}

/// An instruction read from code: what it is, the constant it names if it
/// names one, and where the next instruction starts.
#[derive(Clone, Copy, Debug, PartialEq, Eq)]
pub struct Instruction {
    pub op: OpCode,
    pub constant: Option<usize>,
    pub next: usize,
}

/// The code at `offset` starts a whole instruction.
pub open spec fn whole_instruction_at(code: Seq<u8>, offset: int) -> bool {
    0 <= offset < code.len() && (byte_op(code[offset]) matches Some(op) && offset + instr_size(op)
        <= code.len())
}

/// Bytecode, the constants it refers to, and the line of each byte.
pub struct Chunk {
    code: Vec<u8>,
    constants: ConstArray,
    lines: LineEncoding,
}

impl Chunk {
    /// The bytes of code.
    pub closed spec fn code_view(&self) -> Seq<u8> {
        self.code@
    }

    /// The constant pool.
    pub closed spec fn constants_view(&self) -> Seq<ValueModel> {
        self.constants@
    }

    /// The line table.
    pub closed spec fn line_table_view(&self) -> LineEncoding {
        self.lines
    }

    /// The source line of each byte of code.
    pub open spec fn lines_view(&self) -> Seq<u32> {
        self.line_table_view().lines()
    }

    /// Every byte has a line, and the constant pool fits the operands.
    pub open spec fn wf(&self) -> bool {
        &&& self.line_table_view().wf()
        &&& self.lines_view().len() == self.code_view().len()
        &&& self.constants_view().len() <= MAX_CONSTANTS
    }

    pub fn new() -> (r: Self)
        ensures
            r.wf(),
            r.code_view() == Seq::<u8>::empty(),
            r.constants_view() == Seq::<ValueModel>::empty(),
            r.lines_view() == Seq::<u32>::empty(),
    {
        Chunk { code: Vec::new(), constants: ConstArray::new(), lines: LineEncoding::new() }
    }

    /// Appends one byte of code, from source line `line`.
    pub fn write(&mut self, byte: u8, line: u32)
        requires
            old(self).wf(),
        ensures
            final(self).wf(),
            final(self).code_view() == old(self).code_view().push(byte),
            final(self).lines_view() == old(self).lines_view().push(line),
            final(self).constants_view() == old(self).constants_view(),
    {
        self.code.push(byte);
        self.lines.add(line);
    }

    /// Appends `value` to the constant pool and returns its index.
    pub fn add_constant(&mut self, value: Value) -> (r: usize)
        requires
            old(self).wf(),
            old(self).constants_view().len() < MAX_CONSTANTS,
        ensures
            final(self).wf(),
            r == old(self).constants_view().len(),
            final(self).constants_view() == old(self).constants_view().push(value@),
            final(self).code_view() == old(self).code_view(),
            final(self).lines_view() == old(self).lines_view(),
    {
        self.constants.write(value);
        self.constants.len() - 1
    }

    /// Adds `value` to the pool and appends the instruction that pushes it.
    pub fn write_constant(&mut self, value: Value, line: u32)
        requires
            old(self).wf(),
            old(self).constants_view().len() < MAX_CONSTANTS,
        ensures
            final(self).wf(),
            final(self).constants_view() == old(self).constants_view().push(value@),
            final(self).code_view() == old(self).code_view() + constant_instruction(
                old(self).constants_view().len() as int,
            ),
            final(self).lines_view() == old(self).lines_view() + same_line(
                line,
                constant_instruction(old(self).constants_view().len() as int).len() as int,
            ),
    {
        let addr = self.add_constant(value);
        if addr <= MAX_SHORT_CONSTANT {
            self.write(OpCode::OpConstant.to_byte(), line);
            self.write(addr as u8, line);
            assert(self.code_view() =~= old(self).code_view() + constant_instruction(addr as int));
            assert(self.lines_view() =~= old(self).lines_view() + same_line(line, 2));
        } else {
            self.write(OpCode::OpConstantLong.to_byte(), line);
            let operand = write_u24(addr as u32);
            let mut i: usize = 0;
            while i < 3
                invariant
                    self.wf(),
                    operand@ == u24_bytes(addr as u32),
                    operand@.len() == 3,
                    0 <= i <= 3,
                    self.constants_view() == old(self).constants_view().push(value@),
                    self.code_view() == old(self).code_view() + seq![
                        op_byte(OpCode::OpConstantLong),
                    ] + operand@.subrange(0, i as int),
                    self.lines_view() == old(self).lines_view() + same_line(line, 1 + i),
                decreases 3 - i,
            {
                self.write(operand[i], line);
                assert(operand@.subrange(0, i + 1) =~= operand@.subrange(0, i as int).push(
                    operand@[i as int],
                ));
                assert(same_line(line, 1 + i + 1) =~= same_line(line, 1 + i).push(line));
                i = i + 1;
            }
            assert(operand@.subrange(0, 3) =~= operand@);
            assert(self.code_view() =~= old(self).code_view() + constant_instruction(addr as int));
        }
    }

    /// The source line of byte `index` of the code.
    pub fn get_line_number(&self, index: usize) -> (r: u32)
        requires
            self.wf(),
            index < self.code_view().len(),
        ensures
            r == self.lines_view()[index as int],
    {
        self.lines.get(index)
    }

    /// The instruction at `offset`, or `None` where the byte there encodes
    /// none or its operand runs past the end of the code.
    pub fn instruction_at(&self, offset: usize) -> (r: Option<Instruction>)
        ensures
            r is Some <==> whole_instruction_at(self.code_view(), offset as int),
            r matches Some(ins) ==> {
                let code = self.code_view();
                &&& byte_op(code[offset as int]) == Some(ins.op)
                &&& ins.next == offset + instr_size(ins.op)
                &&& if ins.op == OpCode::OpConstant || ins.op == OpCode::OpConstantLong {
                    ins.constant == Some(
                        operand(ins.op, code.subrange(offset as int, code.len() as int)) as usize,
                    )
                } else {
                    ins.constant is None
                }
            },
    {
        if offset >= self.code.len() {
            return None;
        }
        let op = match OpCode::from_byte(self.code[offset]) {
            Some(op) => op,
            None => {
                return None;
            },
        };
        let ghost rest = self.code@.subrange(offset as int, self.code@.len() as int);
        match op {
            OpCode::OpConstant => {
                if self.code.len() - offset < 2 {
                    return None;
                }
                Some(
                    Instruction {
                        op,
                        constant: Some(self.code[offset + 1] as usize),
                        next: offset + 2,
                    },
                )
            },
            OpCode::OpConstantLong => {
                if self.code.len() - offset < 4 {
                    return None;
                }
                let operand = [self.code[offset + 1], self.code[offset + 2], self.code[offset + 3]];
                assert(operand@ =~= rest.subrange(1, 4));
                let index = read_u24(&operand);
                Some(Instruction { op, constant: Some(index as usize), next: offset + 4 })
            },
            _ => Some(Instruction { op, constant: None, next: offset + 1 }),
        }
    }

    /// Number of bytes of code.
    pub fn len(&self) -> (r: usize)
        ensures
            r == self.code_view().len(),
    {
        self.code.len()
    }

    pub fn code(&self) -> (r: &[u8])
        ensures
            r@ == self.code_view(),
    {
        self.code.as_slice()
    }

    pub fn constants(&self) -> (r: &ConstArray)
        ensures
            r@ == self.constants_view(),
    {
        &self.constants
    }

    pub fn line_table(&self) -> (r: &LineEncoding)
        ensures
            r == self.line_table_view(),
    {
        &self.lines
    }
}

} // verus!
